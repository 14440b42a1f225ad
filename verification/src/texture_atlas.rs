//! The single-page texture atlas: named textures packed onto one large
//! fixed-capacity page, looked up by name.
use vstd::prelude::*;

use crate::AtlasRect;
use crate::alist::{alist_map, alist_unique, lemma_alist_map_dom, lemma_alist_map_index,
    lemma_alist_map_absent, lemma_alist_map_push};
use crate::pack::{TilePacker, AtlasPage, packer_frames, packer_limits, packer_fits, image_dims,
    page_entries_ok, page_disjoint, page_nonempty, rects_disjoint, new_packer, packer_insert,
    packer_rect, packer_export, image_dimensions};
use crate::tile_atlas::AtlasError;
use image::DynamicImage;
use vstd::string::StringExecFns;

verus! {

/// The page capacity of the single flat atlas.
pub const FLAT_PAGE_W: u32 = 4096;

/// The page capacity of the single flat atlas.
pub const FLAT_PAGE_H: u32 = 4096;

/// The path key a named texture is packed under.
pub open spec fn flat_key(name: Seq<char>) -> Seq<char> {
    "data/texture/"@ + name + ".png"@
}

/// The named-rectangle table's view.
pub open spec fn rects_view(s: Seq<(String, AtlasRect)>) -> Seq<(Seq<char>, AtlasRect)> {
    s.map_values(|p: (String, AtlasRect)| (p.0@, p.1))
}

/// Index form of `rects_view`.
pub proof fn lemma_rects_view_index(s: Seq<(String, AtlasRect)>, j: int)
    ensures
        rects_view(s).len() == s.len(),
        0 <= j < s.len() ==> rects_view(s)[j] == (s[j].0@, s[j].1),
{
}

/// Every named rectangle is recorded on the page under its path key.
pub open spec fn flat_on_page(
    rects: Seq<(Seq<char>, AtlasRect)>,
    page: Map<Seq<char>, (u32, u32, u32, u32)>,
) -> bool {
    forall|j: int| 0 <= j < rects.len() ==> {
        let e = #[trigger] rects[j];
        &&& page.contains_key(flat_key(e.0))
        &&& page[flat_key(e.0)] == (e.1.x, e.1.y, e.1.w, e.1.h)
    }
}

/// The path key determines the name: `flat_key` is injective.
pub proof fn lemma_flat_key_injective(a: Seq<char>, b: Seq<char>)
    requires
        flat_key(a) == flat_key(b),
    ensures
        a == b,
{
    reveal_strlit("data/texture/");
    reveal_strlit(".png");
    let n = "data/texture/"@.len() as int;
    assert(flat_key(a).len() == n + a.len() + ".png"@.len());
    assert(flat_key(b).len() == n + b.len() + ".png"@.len());
    assert(a.len() == b.len());
    assert forall|t: int| 0 <= t < a.len() implies a[t] == b[t] by {
        assert(flat_key(a)[n + t] == a[t]);
        assert(flat_key(b)[n + t] == b[t]);
    }
    assert(a =~= b);
}

/// Position of `key` in a named-rectangle table, if any.
fn find_rect(frames: &Vec<(String, AtlasRect)>, key: &String) -> (r: Option<usize>)
    ensures
        match r {
            Some(i) => i < frames@.len() && frames@[i as int].0@ == key@,
            None => forall|j: int| 0 <= j < frames@.len() ==> (#[trigger] frames@[j]).0@ != key@,
        },
{
    let mut i: usize = 0;
    while i < frames.len()
        invariant
            i <= frames@.len(),
            forall|j: int| 0 <= j < i ==> (#[trigger] frames@[j]).0@ != key@,
        decreases frames@.len() - i,
    {
        if frames[i].0 == *key {
            return Some(i);
        }
        i += 1;
    }
    None
}

/// An exact copy of a named-rectangle table.
fn clone_rects(v: &Vec<(String, AtlasRect)>) -> (r: Vec<(String, AtlasRect)>)
    ensures
        r@ =~= v@,
{
    let mut r: Vec<(String, AtlasRect)> = Vec::new();
    let mut i: usize = 0;
    while i < v.len()
        invariant
            i <= v@.len(),
            r@ =~= v@.take(i as int),
        decreases v@.len() - i,
    {
        r.push((v[i].0.clone(), v[i].1));
        proof {
            assert(r@ =~= v@.take(i + 1));
        }
        i += 1;
    }
    proof {
        assert(v@.take(v@.len() as int) =~= v@);
    }
    r
}

/// Accumulates named textures onto one page.
pub struct TextureAtlasBuilder {
    packer: TilePacker,
    frames: Vec<(String, AtlasRect)>,
}

impl TextureAtlasBuilder {
    /// The names already packed and their rectangles.
    pub closed spec fn frames_map(self) -> Map<Seq<char>, AtlasRect> {
        alist_map(rects_view(self.frames@))
    }

    /// The underlying page state, for speaking of its fit decision.
    pub closed spec fn packer_value(self) -> TilePacker {
        self.packer
    }

    /// What the page holds, keyed by path.
    pub closed spec fn page(self) -> Map<Seq<char>, (u32, u32, u32, u32)> {
        packer_frames(self.packer)
    }

    /// The builder's invariant: unique names; the page was created at the
    /// flat capacity; every recorded rectangle sits, non-degenerate, within
    /// capacity, pairwise disjoint, on the page under its path key.
    pub closed spec fn wf(self) -> bool {
        &&& alist_unique(rects_view(self.frames@))
        &&& packer_limits(self.packer) == (FLAT_PAGE_W, FLAT_PAGE_H)
        &&& page_entries_ok(self.page(), (FLAT_PAGE_W, FLAT_PAGE_H))
        &&& page_disjoint(self.page())
        &&& flat_on_page(rects_view(self.frames@), self.page())
    }

    /// An empty flat-atlas builder with one open page.
    pub fn new() -> (b: TextureAtlasBuilder)
        ensures
            b.wf(),
            (b.frames_map() == Map::<Seq<char>, AtlasRect>::empty()),
            (b.page() == Map::<Seq<char>, (u32, u32, u32, u32)>::empty()),
    {
        let b = TextureAtlasBuilder {
            packer: new_packer(FLAT_PAGE_W, FLAT_PAGE_H),
            frames: Vec::new(),
        };
        proof {
            lemma_rects_view_index(b.frames@, 0);
            assert(rects_view(b.frames@) =~= Seq::<(Seq<char>, AtlasRect)>::empty());
        }
        b
    }

    /// Packs the texture for `texture_name` (stored under the conventional
    /// `data/texture/<name>.png` key) and records its rectangle under the
    /// name. An image with a zero dimension, wider than the page, or not
    /// strictly shorter than the page is rejected; otherwise acceptance is
    /// the packer's fit decision, and an empty page always accepts. The
    /// recorded rectangle exactly bounds the image; nothing changes on
    /// failure.
    pub fn add_texture(&mut self, texture_name: &str, texture: DynamicImage) -> (r: Result<
        (),
        AtlasError,
    >)
        requires
            old(self).wf(),
            !old(self).frames_map().contains_key(texture_name@),
        ensures
            final(self).wf(),
            r matches Err(e) ==> e == AtlasError::PackingFailed && final(self).frames_map()
                == old(self).frames_map() && final(self).page() == old(self).page(),
            r == Ok::<(), AtlasError>(()) <==> {
                &&& 1 <= image_dims(texture).0 <= FLAT_PAGE_W
                &&& 1 <= image_dims(texture).1
                &&& image_dims(texture).1 + 1 <= FLAT_PAGE_H
                &&& packer_fits(
                    old(self).packer_value(),
                    image_dims(texture).0,
                    image_dims(texture).1,
                )
            },
            ({
                &&& old(self).page() == Map::<Seq<char>, (u32, u32, u32, u32)>::empty()
                &&& 1 <= image_dims(texture).0 <= FLAT_PAGE_W
                &&& 1 <= image_dims(texture).1
                &&& image_dims(texture).1 + 1 <= FLAT_PAGE_H
            }) ==> r == Ok::<(), AtlasError>(()),
            r == Ok::<(), AtlasError>(()) ==> exists|a: AtlasRect|
                {
                    &&& #[trigger] final(self).frames_map() == old(self).frames_map().insert(
                        texture_name@,
                        a,
                    )
                    &&& a.w == image_dims(texture).0
                    &&& a.h == image_dims(texture).1
                    &&& a.x + a.w <= FLAT_PAGE_W
                    &&& a.y + a.h <= FLAT_PAGE_H
                },
    {
        let dims = image_dimensions(&texture);
        if dims.0 < 1 || dims.1 < 1 || dims.0 > FLAT_PAGE_W || dims.1 >= FLAT_PAGE_H {
            return Err(AtlasError::PackingFailed);
        }
        let mut path = String::from_str("data/texture/");
        path.append(texture_name);
        path.append(".png");
        proof {
            assert(path@ == flat_key(texture_name@));
        }
        let ghost page0 = packer_frames(self.packer);
        let ok = packer_insert(&mut self.packer, path.clone(), texture);
        if !ok {
            return Err(AtlasError::PackingFailed);
        }
        let rect = match packer_rect(&self.packer, &path) {
            Some(rect) => rect,
            None => vstd::pervasive::unreached(),
        };
        proof {
            let r0 = choose|r: (u32, u32, u32, u32)|
                #![trigger page0.insert(path@, r)]
                {
                    &&& packer_frames(self.packer) == page0.insert(path@, r)
                    &&& r.2 == dims.0
                    &&& r.3 == dims.1
                    &&& r.0 + r.2 <= FLAT_PAGE_W
                    &&& r.1 + r.3 <= FLAT_PAGE_H
                    &&& forall|k: Seq<char>|
                        k != path@ && page0.contains_key(k) ==> rects_disjoint(
                            r,
                            #[trigger] page0[k],
                        )
                };
            assert(packer_frames(self.packer)[path@] == r0);
            assert((rect.x, rect.y, rect.w, rect.h) == r0);
        }
        let key = texture_name.to_owned();
        let ghost rv0 = rects_view(self.frames@);
        proof {
            lemma_alist_map_dom(rv0);
            assert forall|j: int| 0 <= j < rv0.len() implies (#[trigger] rv0[j]).0
                != texture_name@ by {
                lemma_rects_view_index(self.frames@, j);
            }
        }
        let ghost entry: (String, AtlasRect) = (key, rect);
        self.frames.push((key, rect));
        proof {
            assert(entry.0@ == texture_name@);
            assert(rects_view(self.frames@) =~= rv0.push((texture_name@, rect)));
            lemma_alist_map_push(rv0, texture_name@, rect);
            let rv = rects_view(self.frames@);
            assert(alist_unique(rv)) by {
                assert(forall|j: int| 0 <= j < rv0.len() ==> #[trigger] rv[j] == rv0[j]);
            }
            // geometry and coupling of the grown page
            let pg = self.page();
            assert(pg == page0.insert(path@, (rect.x, rect.y, rect.w, rect.h)));
            assert forall|k: Seq<char>| pg.contains_key(k) implies {
                let v = #[trigger] pg[k];
                &&& 1 <= v.2
                &&& 1 <= v.3
                &&& v.0 + v.2 <= FLAT_PAGE_W
                &&& v.1 + v.3 <= FLAT_PAGE_H
            } by {
                if k != path@ {
                    assert(page0.contains_key(k) && pg[k] == page0[k]);
                }
            }
            assert forall|k1: Seq<char>, k2: Seq<char>|
                k1 != k2 && pg.contains_key(k1) && pg.contains_key(k2) implies rects_disjoint(
                #[trigger] pg[k1],
                #[trigger] pg[k2],
            ) by {
                if k1 == path@ {
                    assert(page0.contains_key(k2) && pg[k2] == page0[k2]);
                } else if k2 == path@ {
                    assert(page0.contains_key(k1) && pg[k1] == page0[k1]);
                } else {
                    assert(page0.contains_key(k1) && page0.contains_key(k2));
                }
            }
            assert forall|j: int| 0 <= j < rv.len() implies {
                let e = #[trigger] rv[j];
                &&& pg.contains_key(flat_key(e.0))
                &&& pg[flat_key(e.0)] == (e.1.x, e.1.y, e.1.w, e.1.h)
            } by {
                if j < rv0.len() {
                    assert(rv[j] == rv0[j]);
                    assert(rv0[j].0 != texture_name@);
                    assert(flat_key(rv0[j].0) != path@) by {
                        if flat_key(rv0[j].0) == path@ {
                            lemma_flat_key_injective(rv0[j].0, texture_name@);
                        }
                    }
                    assert(pg[flat_key(rv0[j].0)] == page0[flat_key(rv0[j].0)]);
                } else {
                    assert(rv[j] == (texture_name@, rect));
                }
            }
        }
        Ok(())
    }

    /// Renders the page and freezes the name table into a flat atlas; a
    /// builder holding at least one texture always builds.
    pub fn build(&self) -> (r: Result<TextureAtlas, AtlasError>)
        requires
            self.wf(),
        ensures
            match r {
                Ok(a) => a.wf() && a.frames_map() == self.frames_map(),
                Err(e) => e == AtlasError::ExportFailed,
            },
            (exists|k: Seq<char>| #[trigger] self.frames_map().contains_key(k)) ==> r is Ok,
    {
        proof {
            if exists|k: Seq<char>| self.frames_map().contains_key(k) {
                let k = choose|k: Seq<char>| self.frames_map().contains_key(k);
                lemma_alist_map_dom(rects_view(self.frames@));
                let j = choose|j: int|
                    0 <= j < rects_view(self.frames@).len() && #[trigger] rects_view(
                        self.frames@,
                    )[j].0 == k;
                assert(self.page().contains_key(flat_key(k)));
                assert(page_nonempty(self.page()));
            }
        }
        let img = match packer_export(&self.packer) {
            Some(img) => img,
            None => {
                return Err(AtlasError::ExportFailed);
            },
        };
        let atlas = TextureAtlas {
            texture: AtlasPage::from_image(img),
            frames: clone_rects(&self.frames),
        };
        Ok(atlas)
    }
}

/// Textures of the flat atlas never overlap: any two distinct names map to
/// disjoint rectangles on the single page.
pub proof fn lemma_flat_disjoint(b: TextureAtlasBuilder, k1: Seq<char>, k2: Seq<char>)
    requires
        b.wf(),
        k1 != k2,
        b.frames_map().contains_key(k1),
        b.frames_map().contains_key(k2),
    ensures
        ({
            let a1 = b.frames_map()[k1];
            let a2 = b.frames_map()[k2];
            rects_disjoint((a1.x, a1.y, a1.w, a1.h), (a2.x, a2.y, a2.w, a2.h))
        }),
{
    let rv = rects_view(b.frames@);
    lemma_alist_map_dom(rv);
    let j1 = choose|j: int| 0 <= j < rv.len() && #[trigger] rv[j].0 == k1;
    let j2 = choose|j: int| 0 <= j < rv.len() && #[trigger] rv[j].0 == k2;
    lemma_alist_map_index(rv, j1);
    lemma_alist_map_index(rv, j2);
    assert(b.page().contains_key(flat_key(k1)) && b.page()[flat_key(k1)] == (
        rv[j1].1.x,
        rv[j1].1.y,
        rv[j1].1.w,
        rv[j1].1.h,
    ));
    assert(b.page().contains_key(flat_key(k2)) && b.page()[flat_key(k2)] == (
        rv[j2].1.x,
        rv[j2].1.y,
        rv[j2].1.w,
        rv[j2].1.h,
    ));
    assert(flat_key(k1) != flat_key(k2)) by {
        if flat_key(k1) == flat_key(k2) {
            lemma_flat_key_injective(k1, k2);
        }
    }
    assert(page_disjoint(b.page()));
}

/// The built flat atlas: one finished page plus the name table.
pub struct TextureAtlas {
    texture: AtlasPage,
    frames: Vec<(String, AtlasRect)>,
}

impl TextureAtlas {
    /// The names packed and their rectangles.
    pub closed spec fn frames_map(self) -> Map<Seq<char>, AtlasRect> {
        alist_map(rects_view(self.frames@))
    }

    /// The atlas's invariant: unique names.
    pub closed spec fn wf(self) -> bool {
        alist_unique(rects_view(self.frames@))
    }

    /// The finished page.
    pub fn get_texture(&self) -> (r: &AtlasPage) {
        &self.texture
    }

    /// The packed rectangle recorded under `key`.
    pub fn get_texture_area(&self, key: &str) -> (r: &AtlasRect)
        requires
            self.wf(),
            self.frames_map().contains_key(key@),
        ensures
            *r == self.frames_map()[key@],
    {
        let k = key.to_owned();
        let i = match find_rect(&self.frames, &k) {
            Some(i) => i,
            None => {
                proof {
                    let rv = rects_view(self.frames@);
                    assert forall|j: int| 0 <= j < rv.len() implies (#[trigger] rv[j]).0
                        != key@ by {
                        lemma_rects_view_index(self.frames@, j);
                    }
                    lemma_alist_map_absent(rv, key@);
                }
                vstd::pervasive::unreached()
            },
        };
        proof {
            lemma_rects_view_index(self.frames@, i as int);
            lemma_alist_map_index(rects_view(self.frames@), i as int);
        }
        &self.frames[i].1
    }
}

} // verus!
