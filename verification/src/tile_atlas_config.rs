//! The persistable atlas config and the cache gatekeeper: a content hash of
//! the source definition text decides rebuild-versus-reuse, and a validated
//! config reconstructs an atlas without any packing.
use vstd::prelude::*;

use crypto::digest::Digest;
use crypto::sha3::Sha3;

use vstd::string::StringExecFns;

use crate::alist::{alist_map, alist_unique, lemma_alist_map_dom, lemma_alist_map_index,
    lemma_alist_map_absent};
use crate::tile_atlas::{AtlasFrame, FrameView, TileAtlas, loc_view, frames_view, table_wf,
    pages_ok, links_ok, frame_view_wf, tile_valid, TileKind, lemma_loc_view_index,
    lemma_frames_view_index, find_frame, find_tile, clone_locations, clone_frames};
use crate::pack::AtlasPage;
use crate::codec::{spec_encode_config, spec_decode_config, encode_parts, decode_parts};

verus! {

/// The persistable projection of a built atlas: its location and frame
/// tables and the content hash of the definition text it was built from.
/// Pages are persisted separately as image files, one per page index.
#[derive(Debug, PartialEq, Eq)]
pub struct TileAtlasConfig {
    pub locations: Vec<(usize, String)>,
    pub frames: Vec<(String, AtlasFrame)>,
    pub file_hash: String,
}

/// The mathematical content of a persisted config.
#[verifier::ext_equal]
pub ghost struct ConfigView {
    pub locations: Seq<(usize, Seq<char>)>,
    pub frames: Seq<(Seq<char>, FrameView)>,
    pub file_hash: Seq<char>,
}

impl View for TileAtlasConfig {
    type V = ConfigView;

    open spec fn view(&self) -> ConfigView {
        ConfigView {
            locations: loc_view(self.locations@),
            frames: frames_view(self.frames@),
            file_hash: self.file_hash@,
        }
    }
}

/// Where a named config's cache directory lives.
pub fn get_config_cache_path(config_name: &str) -> (r: String)
    ensures
        r@ == "data/.packed/"@ + config_name@,
{
    let mut s = String::from_str("data/.packed/");
    s.append(config_name);
    s
}

/// The hex digest of a definition text: a pure function of its characters.
pub uninterp spec fn digest_of(s: Seq<char>) -> Seq<char>;

/// A lowercase hexadecimal digit.
pub open spec fn is_hex_char(c: char) -> bool {
    ('0' <= c && c <= '9') || ('a' <= c && c <= 'f')
}

/// Relies on rust-crypto's Sha3-256 (`input_str` then `result_str`): the
/// hex digest string depends on the input characters alone, and is the
/// 32-byte digest written as 64 lowercase hexadecimal characters.
#[verifier::external_body]
fn hash_str(s: &str) -> (r: String)
    ensures
        r@ == digest_of(s@),
        r@.len() == 64,
        forall|i: int| 0 <= i < r@.len() ==> is_hex_char(#[trigger] r@[i]),
{
    let mut hasher = Sha3::sha3_256();
    hasher.input_str(s);
    hasher.result_str()
}

/// The content hash the gatekeeper compares: 64 lowercase hex characters.
pub fn content_hash(s: &str) -> (r: String)
    ensures
        r@ == digest_of(s@),
        r@.len() == 64,
        forall|i: int| 0 <= i < r@.len() ==> is_hex_char(#[trigger] r@[i]),
{
    hash_str(s)
}

/// The gatekeeper's verdict.
#[derive(Clone, Copy, Debug, PartialEq, Eq, Structural)]
pub enum CacheDecision {
    Rebuild,
    Reuse,
}

/// The gatekeeper's rule: reuse exactly when a persisted config exists and
/// its hash equals the current one; any mismatch or absence rebuilds.
pub open spec fn spec_decision(persisted: Option<Seq<char>>, current: Seq<char>) -> CacheDecision {
    match persisted {
        Some(h) => if h == current {
            CacheDecision::Reuse
        } else {
            CacheDecision::Rebuild
        },
        None => CacheDecision::Rebuild,
    }
}

/// Decides rebuild-versus-reuse from the persisted config and the current
/// definition text's hash.
pub fn check_cache(persisted: Option<&TileAtlasConfig>, current_hash: &String) -> (d: CacheDecision)
    ensures
        (d == spec_decision(
            match persisted {
                Some(c) => Some(c@.file_hash),
                None => None,
            },
            current_hash@,
        )),
        d == CacheDecision::Reuse <==> (persisted matches Some(c) && c@.file_hash
            == current_hash@),
{
    match persisted {
        None => CacheDecision::Rebuild,
        Some(c) => if c.file_hash == *current_hash {
            CacheDecision::Reuse
        } else {
            CacheDecision::Rebuild
        },
    }
}

/// Serializes a config to the binary blob format.
pub fn encode_config(c: &TileAtlasConfig) -> (out: Vec<u8>)
    ensures
        (out@ == spec_encode_config(c@.locations, c@.frames, c@.file_hash)),
{
    encode_parts(&c.locations, &c.frames, &c.file_hash)
}

/// Deserializes a config from the binary blob format; `None` on any
/// malformed or incompletely consumed blob.
pub fn decode_config(b: &Vec<u8>) -> (r: Option<TileAtlasConfig>)
    ensures
        match r {
            Some(c) => spec_decode_config(b@) == Some((c@.locations, c@.frames, c@.file_hash)),
            None => spec_decode_config(b@) is None,
        },
{
    match decode_parts(b) {
        None => None,
        Some((locations, frames, file_hash)) => Some(
            TileAtlasConfig { locations, frames, file_hash },
        ),
    }
}

/// Whether all keys in a usize-keyed entry list are distinct.
fn usize_keys_unique<X>(v: &Vec<(usize, X)>) -> (b: bool)
    ensures
        b == (forall|i: int, j: int|
            0 <= i < j < v@.len() ==> (#[trigger] v@[i]).0 != (#[trigger] v@[j]).0),
{
    let mut i: usize = 0;
    while i < v.len()
        invariant
            i <= v@.len(),
            forall|a: int, c: int| 0 <= a < c < i ==> (#[trigger] v@[a]).0 != (#[trigger] v@[c]).0,
        decreases v@.len() - i,
    {
        let mut j: usize = 0;
        while j < i
            invariant
                j <= i < v@.len(),
                forall|a: int| 0 <= a < j ==> (#[trigger] v@[a]).0 != v@[i as int].0,
            decreases i - j,
        {
            if v[j].0 == v[i].0 {
                return false;
            }
            j += 1;
        }
        i += 1;
    }
    true
}

/// Whether all keys in a string-keyed entry list are distinct.
fn string_keys_unique<X>(v: &Vec<(String, X)>) -> (b: bool)
    ensures
        b == (forall|i: int, j: int|
            0 <= i < j < v@.len() ==> (#[trigger] v@[i]).0@ != (#[trigger] v@[j]).0@),
{
    let mut i: usize = 0;
    while i < v.len()
        invariant
            i <= v@.len(),
            forall|a: int, c: int|
                0 <= a < c < i ==> (#[trigger] v@[a]).0@ != (#[trigger] v@[c]).0@,
        decreases v@.len() - i,
    {
        let mut j: usize = 0;
        while j < i
            invariant
                j <= i < v@.len(),
                forall|a: int| 0 <= a < j ==> (#[trigger] v@[a]).0@ != v@[i as int].0@,
            decreases i - j,
        {
            if v[j].0 == v[i].0 {
                return false;
            }
            j += 1;
        }
        i += 1;
    }
    true
}

/// Whether one tile's animation data is valid.
fn tile_data_valid(t: &crate::tile_atlas::AtlasTile) -> (b: bool)
    ensures
        b == tile_valid(*t),
{
    match t.tile_kind {
        TileKind::Static => true,
        TileKind::Animated(fc, d) => 1 <= fc && fc <= 0xFFFF_FFFFu64 && d >= 1,
    }
}

impl TileAtlasConfig {
    /// Whether the persisted tables satisfy the atlas invariant for
    /// `npages` reloaded pages: unique keys throughout, well-formed frames
    /// on existing pages, and every registered index linked to a hosting
    /// frame.
    pub fn validate(&self, npages: usize) -> (b: bool)
        ensures
            b == (table_wf(self@.locations, self@.frames) && pages_ok(
                self@.frames,
                npages as int,
            )),
    {
        let ghost lv = self@.locations;
        let ghost fv = self@.frames;
        proof {
            lemma_loc_view_index(self.locations@, 0);
            lemma_frames_view_index(self.frames@, 0);
        }
        if !usize_keys_unique(&self.locations) {
            proof {
                let (i, j) = choose|i: int, j: int|
                    0 <= i < j < self.locations@.len() && (#[trigger] self.locations@[i]).0 == (
                    #[trigger] self.locations@[j]).0;
                lemma_loc_view_index(self.locations@, i);
                lemma_loc_view_index(self.locations@, j);
                assert(lv[i].0 == lv[j].0);
                assert(!alist_unique(lv));
            }
            return false;
        }
        if !string_keys_unique(&self.frames) {
            proof {
                let (i, j) = choose|i: int, j: int|
                    0 <= i < j < self.frames@.len() && (#[trigger] self.frames@[i]).0@ == (
                    #[trigger] self.frames@[j]).0@;
                lemma_frames_view_index(self.frames@, i);
                lemma_frames_view_index(self.frames@, j);
                assert(fv[i].0 == fv[j].0);
                assert(!alist_unique(fv));
            }
            return false;
        }
        proof {
            assert forall|i: int, j: int| 0 <= i < j < lv.len() implies #[trigger] lv[i].0
                != #[trigger] lv[j].0 by {
                lemma_loc_view_index(self.locations@, i);
                lemma_loc_view_index(self.locations@, j);
            }
            assert forall|i: int, j: int| 0 <= i < j < fv.len() implies #[trigger] fv[i].0
                != #[trigger] fv[j].0 by {
                lemma_frames_view_index(self.frames@, i);
                lemma_frames_view_index(self.frames@, j);
            }
            assert(alist_unique(lv));
            assert(alist_unique(fv));
        }
        // each frame well-formed and on an existing page
        let mut i: usize = 0;
        while i < self.frames.len()
            invariant
                i <= self.frames@.len(),
                fv == frames_view(self.frames@),
                lv == loc_view(self.locations@),
                fv.len() == self.frames@.len(),
                alist_unique(lv),
                alist_unique(fv),
                forall|k: int|
                    0 <= k < i ==> frame_view_wf((#[trigger] fv[k]).1) && fv[k].1.texture_idx
                        < npages,
            decreases self.frames@.len() - i,
        {
            let f = &self.frames[i].1;
            proof {
                lemma_frames_view_index(self.frames@, i as int);
            }
            if f.tile_size.0 < 1 || f.tile_size.1 < 1 || f.texture_idx >= npages {
                proof {
                    assert(!(frame_view_wf(fv[i as int].1) && fv[i as int].1.texture_idx
                        < npages));
                }
                return false;
            }
            if !usize_keys_unique(&f.offsets) {
                proof {
                    assert(!alist_unique(fv[i as int].1.offsets));
                    assert(!frame_view_wf(fv[i as int].1));
                }
                return false;
            }
            let mut k: usize = 0;
            while k < f.offsets.len()
                invariant
                    k <= f.offsets@.len(),
                    i < self.frames@.len(),
                    fv == frames_view(self.frames@),
                    fv.len() == self.frames@.len(),
                    (fv[i as int].1 == f@),
                    forall|m: int| 0 <= m < k ==> tile_valid((#[trigger] f.offsets@[m]).1),
                decreases f.offsets@.len() - k,
            {
                if !tile_data_valid(&f.offsets[k].1) {
                    proof {
                        assert(fv[i as int].1.offsets[k as int].1 == f.offsets@[k as int].1);
                        assert(!tile_valid(fv[i as int].1.offsets[k as int].1));
                        assert(!frame_view_wf(fv[i as int].1));
                    }
                    return false;
                }
                k += 1;
            }
            proof {
                assert(frame_view_wf(fv[i as int].1));
            }
            i += 1;
        }
        // every registered index links to a hosting frame
        let mut i: usize = 0;
        while i < self.locations.len()
            invariant
                i <= self.locations@.len(),
                fv == frames_view(self.frames@),
                lv == loc_view(self.locations@),
                lv.len() == self.locations@.len(),
                alist_unique(lv),
                alist_unique(fv),
                forall|k: int|
                    0 <= k < i ==> {
                        let e = #[trigger] lv[k];
                        alist_map(fv).contains_key(e.1) && alist_map(
                            alist_map(fv)[e.1].offsets,
                        ).contains_key(e.0)
                    },
            decreases self.locations@.len() - i,
        {
            proof {
                lemma_loc_view_index(self.locations@, i as int);
            }
            let key = &self.locations[i].1;
            let idx = self.locations[i].0;
            let j = match find_frame(&self.frames, key) {
                Some(j) => j,
                None => {
                    proof {
                        assert forall|m: int| 0 <= m < fv.len() implies (#[trigger] fv[m]).0
                            != key@ by {
                            lemma_frames_view_index(self.frames@, m);
                        }
                        lemma_alist_map_absent(fv, key@);
                        assert(!links_ok(lv, fv)) by {
                            assert(lv[i as int].1 == key@);
                        }
                    }
                    return false;
                },
            };
            proof {
                lemma_frames_view_index(self.frames@, j as int);
                lemma_alist_map_index(fv, j as int);
            }
            match find_tile(&self.frames[j].1.offsets, idx) {
                Some(_) => {
                    proof {
                        lemma_alist_map_dom(fv[j as int].1.offsets);
                    }
                },
                None => {
                    proof {
                        lemma_alist_map_absent(fv[j as int].1.offsets, idx);
                        assert(!links_ok(lv, fv)) by {
                            assert(lv[i as int] == (idx, key@));
                            assert(alist_map(fv)[key@] == fv[j as int].1);
                        }
                    }
                    return false;
                },
            }
            proof {
                lemma_alist_map_dom(fv[j as int].1.offsets);
                let e = lv[i as int];
                assert(alist_map(fv).contains_key(e.1)) by {
                    lemma_alist_map_dom(fv);
                }
                assert(alist_map(fv)[e.1] == fv[j as int].1);
            }
            i += 1;
        }
        true
    }
}

/// Re-running the gatekeeper on unchanged definition text always reuses
/// the persisted atlas: a persisted hash equal to the current one decides
/// `Reuse`, so no packing happens.
pub proof fn lemma_unchanged_text_reuses(h: Seq<char>)
    ensures
        spec_decision(Some(h), h) == CacheDecision::Reuse,
{
}

/// A persisted hash differing from the current definition-text hash always
/// decides `Rebuild`, never `Reuse`.
pub proof fn lemma_hash_mismatch_rebuilds(persisted: Seq<char>, current: Seq<char>)
    requires
        persisted != current,
    ensures
        spec_decision(Some(persisted), current) == CacheDecision::Rebuild,
{
}

impl TileAtlas {
    /// The persistable projection of this atlas under the given content
    /// hash.
    pub fn make_config(&self, file_hash: String) -> (c: TileAtlasConfig)
        ensures
            c@.locations == self@.locations,
            c@.frames == self@.frames,
            c@.file_hash == file_hash@,
    {
        TileAtlasConfig {
            locations: clone_locations(self.locations()),
            frames: clone_frames(self.frames()),
            file_hash,
        }
    }

    /// Reconstructs an atlas from persisted metadata and reloaded pages,
    /// without any packing: the tables are exactly the persisted ones.
    pub fn from_config(config: TileAtlasConfig, pages: Vec<AtlasPage>) -> (a: TileAtlas)
        requires
            table_wf(config@.locations, config@.frames),
            pages_ok(config@.frames, pages@.len() as int),
        ensures
            a.wf(),
            a@.locations == config@.locations,
            a@.frames == config@.frames,
            (a@.page_dims == pages@.map_values(|p: AtlasPage| (p.width, p.height))),
    {
        TileAtlas::new(config.locations, config.frames, pages)
    }
}

} // verus!
