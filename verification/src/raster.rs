//! The pixel side of the windows' software renderer: a frame of premultiplied colours,
//! blending a colour over a pixel, shading text by the font atlas, and the frame as
//! BGRA bytes for the screen. Turning shapes into triangles and covering pixels with them
//! is the caller's part.
use vstd::prelude::*;

verus! {

/// A premultiplied colour.
#[derive(Debug, Clone, Copy, PartialEq, Eq, Structural)]
pub struct Rgba {
    pub r: u8,
    pub g: u8,
    pub b: u8,
    pub a: u8,
}

pub open spec fn black() -> Rgba {
    Rgba { r: 0, g: 0, b: 0, a: 255 }
}

/// One channel of `src` over `dst` with `src`'s alpha `a`.
pub open spec fn mix(d: u8, s: u8, a: u8) -> int {
    (d * (255 - a) + s * a) / 255
}

/// `src` over `dst`: an opaque `src` replaces, a transparent one keeps `dst`, else each
/// colour channel mixes by `src`'s alpha and the alphas combine.
pub open spec fn blended(dst: Rgba, src: Rgba) -> Rgba {
    if src.a == 255 {
        src
    } else if src.a == 0 {
        dst
    } else {
        Rgba {
            r: mix(dst.r, src.r, src.a) as u8,
            g: mix(dst.g, src.g, src.a) as u8,
            b: mix(dst.b, src.b, src.a) as u8,
            a: (dst.a + src.a - (dst.a * src.a) / 255) as u8,
        }
    }
}

/// A vertex colour scaled by a font texel, channel by channel.
pub open spec fn shaded(c: Rgba, t: Rgba) -> Rgba {
    Rgba {
        r: (c.r * t.r / 255) as u8,
        g: (c.g * t.g / 255) as u8,
        b: (c.b * t.b / 255) as u8,
        a: (c.a * t.a / 255) as u8,
    }
}

/// The frame's bytes: blue, green, red and alpha of each pixel in turn.
pub open spec fn bgra(ps: Seq<Rgba>) -> Seq<u8>
    decreases ps.len(),
{
    if ps.len() == 0 {
        seq![]
    } else {
        bgra(ps.drop_last()) + seq![ps.last().b, ps.last().g, ps.last().r, ps.last().a]
    }
}

/// The frame, the font atlas and their sizes.
pub struct EguiRenderer {
    pub pixels: Vec<Rgba>,
    pub width: usize,
    pub height: usize,
    pub font_pixels: Vec<Rgba>,
    pub font_size: [usize; 2],
}

proof fn lemma_mix_bound(d: u8, s: u8, a: u8)
    ensures
        0 <= mix(d, s, a) <= 255,
{
    assert(0 <= d * (255 - a) + s * a <= 255 * 255) by (nonlinear_arith)
        requires
            d <= 255,
            s <= 255,
            a <= 255,
    ;
}

proof fn lemma_alpha_bound(da: u8, sa: u8)
    ensures
        0 <= da + sa - (da * sa) / 255 <= 255,
{
    assert(da * sa <= 255 * sa) by (nonlinear_arith)
        requires
            da <= 255,
    ;
    assert((255 - da) * (255 - sa) >= 0) by (nonlinear_arith)
        requires
            da <= 255,
            sa <= 255,
    ;
    assert(da * sa >= 255 * (da + sa) - 255 * 255) by (nonlinear_arith)
        requires
            (255 - da) * (255 - sa) >= 0,
    ;
}

impl EguiRenderer {
    /// An empty frame and atlas; the atlas is taken to be 2048 by 2048.
    pub fn new() -> (r: EguiRenderer)
        ensures
            r.pixels@ == Seq::<Rgba>::empty(),
            r.width == 0 && r.height == 0,
            r.font_pixels@ == Seq::<Rgba>::empty(),
            r.font_size@ == seq![2048usize, 2048usize],
    {
        EguiRenderer {
            pixels: Vec::new(),
            width: 0,
            height: 0,
            font_pixels: Vec::new(),
            font_size: [2048, 2048],
        }
    }

    /// Takes a new frame size: a different size starts a black frame of that size; the
    /// same size keeps the frame.
    pub fn resize(&mut self, width: usize, height: usize)
        requires
            width * height <= usize::MAX,
        ensures
            final(self).width == width && final(self).height == height,
            (width != old(self).width || height != old(self).height) ==> final(self).pixels@
                == Seq::new((width * height) as nat, |i: int| black()),
            (width == old(self).width && height == old(self).height) ==> final(self).pixels@
                == old(self).pixels@,
            final(self).font_pixels@ == old(self).font_pixels@,
            final(self).font_size@ == old(self).font_size@,
    {
        if width != self.width || height != self.height {
            self.width = width;
            self.height = height;
            let n = width * height;
            let mut ps: Vec<Rgba> = Vec::new();
            let mut i: usize = 0;
            while i < n
                invariant
                    i <= n,
                    ps@ == Seq::new(i as nat, |k: int| black()),
                decreases n - i,
            {
                ps.push(Rgba { r: 0, g: 0, b: 0, a: 255 });
                assert(ps@ =~= Seq::new((i + 1) as nat, |k: int| black()));
                i = i + 1;
            }
            self.pixels = ps;
        }
    }

    /// Paints every pixel with the background.
    pub fn clear(&mut self, bg: Rgba)
        ensures
            final(self).pixels@ == Seq::new(old(self).pixels@.len(), |i: int| bg),
            final(self).width == old(self).width && final(self).height == old(self).height,
            final(self).font_pixels@ == old(self).font_pixels@,
            final(self).font_size@ == old(self).font_size@,
    {
        let n = self.pixels.len();
        let mut i: usize = 0;
        while i < n
            invariant
                i <= n,
                n == self.pixels.len(),
                n == old(self).pixels@.len(),
                forall|k: int| 0 <= k < i ==> self.pixels@[k] == bg,
                self.width == old(self).width && self.height == old(self).height,
                self.font_pixels@ == old(self).font_pixels@,
                self.font_size@ == old(self).font_size@,
            decreases n - i,
        {
            self.pixels.set(i, bg);
            i = i + 1;
        }
        assert(self.pixels@ =~= Seq::new(old(self).pixels@.len(), |i: int| bg));
    }

    /// Takes the font atlas.
    pub fn set_font(&mut self, size: [usize; 2], pixels: Vec<Rgba>)
        ensures
            final(self).font_size@ == size@,
            final(self).font_pixels@ == pixels@,
            final(self).pixels@ == old(self).pixels@,
            final(self).width == old(self).width && final(self).height == old(self).height,
    {
        self.font_size = size;
        self.font_pixels = pixels;
    }

    /// `src` over `dst`: see `blended`.
    pub fn blend(dst: Rgba, src: Rgba) -> (r: Rgba)
        ensures
            r == blended(dst, src),
    {
        let a = src.a;
        if a == 255 {
            return src;
        }
        if a == 0 {
            return dst;
        }
        proof {
            lemma_mix_bound(dst.r, src.r, a);
            lemma_mix_bound(dst.g, src.g, a);
            lemma_mix_bound(dst.b, src.b, a);
            lemma_alpha_bound(dst.a, src.a);
        }
        let a16 = a as u16;
        let inv = 255 - a16;
        assert((dst.r as u16) * inv <= 255 * 255) by (nonlinear_arith)
            requires
                dst.r <= 255,
                inv <= 255,
        ;
        assert((src.r as u16) * a16 <= 255 * 255) by (nonlinear_arith)
            requires
                src.r <= 255,
                a16 <= 255,
        ;
        assert((dst.g as u16) * inv <= 255 * 255) by (nonlinear_arith)
            requires
                dst.g <= 255,
                inv <= 255,
        ;
        assert((src.g as u16) * a16 <= 255 * 255) by (nonlinear_arith)
            requires
                src.g <= 255,
                a16 <= 255,
        ;
        assert((dst.b as u16) * inv <= 255 * 255) by (nonlinear_arith)
            requires
                dst.b <= 255,
                inv <= 255,
        ;
        assert((src.b as u16) * a16 <= 255 * 255) by (nonlinear_arith)
            requires
                src.b <= 255,
                a16 <= 255,
        ;
        assert((dst.a as u16) * a16 <= 255 * 255) by (nonlinear_arith)
            requires
                dst.a <= 255,
                a16 <= 255,
        ;
        let r = ((dst.r as u16 * inv + src.r as u16 * a16) / 255) as u8;
        let g = ((dst.g as u16 * inv + src.g as u16 * a16) / 255) as u8;
        let b = ((dst.b as u16 * inv + src.b as u16 * a16) / 255) as u8;
        let al = (dst.a as u16 + a16 - (dst.a as u16 * a16) / 255) as u8;
        Rgba { r, g, b, a: al }
    }

    /// A vertex colour scaled by a font texel: see `shaded`.
    pub fn shade(c: Rgba, t: Rgba) -> (r: Rgba)
        ensures
            r == shaded(c, t),
    {
        assert((c.r as u16) * (t.r as u16) <= 255 * 255) by (nonlinear_arith)
            requires
                c.r <= 255,
                t.r <= 255,
        ;
        assert((c.g as u16) * (t.g as u16) <= 255 * 255) by (nonlinear_arith)
            requires
                c.g <= 255,
                t.g <= 255,
        ;
        assert((c.b as u16) * (t.b as u16) <= 255 * 255) by (nonlinear_arith)
            requires
                c.b <= 255,
                t.b <= 255,
        ;
        assert((c.a as u16) * (t.a as u16) <= 255 * 255) by (nonlinear_arith)
            requires
                c.a <= 255,
                t.a <= 255,
        ;
        Rgba {
            r: (c.r as u16 * t.r as u16 / 255) as u8,
            g: (c.g as u16 * t.g as u16 / 255) as u8,
            b: (c.b as u16 * t.b as u16 / 255) as u8,
            a: (c.a as u16 * t.a as u16 / 255) as u8,
        }
    }

    /// Blends `src` over the pixel at `idx`; an index past the frame paints nothing.
    pub fn paint(&mut self, idx: usize, src: Rgba)
        ensures
            idx < old(self).pixels@.len() ==> final(self).pixels@ == old(self).pixels@.update(
                idx as int,
                blended(old(self).pixels@[idx as int], src),
            ),
            idx >= old(self).pixels@.len() ==> final(self).pixels@ == old(self).pixels@,
            final(self).width == old(self).width && final(self).height == old(self).height,
            final(self).font_pixels@ == old(self).font_pixels@,
            final(self).font_size@ == old(self).font_size@,
    {
        if idx < self.pixels.len() {
            let d = self.pixels[idx];
            let c = Self::blend(d, src);
            self.pixels.set(idx, c);
        }
    }

    /// The font texel at column `tx` and row `ty`, when they are inside the atlas.
    pub fn font_texel(&self, tx: usize, ty: usize) -> (r: Option<Rgba>)
        requires
            tx < self.font_size@[0] && ty < self.font_size@[1] ==> ty * self.font_size@[0] + tx
                < self.font_pixels@.len(),
        ensures
            (tx < self.font_size@[0] && ty < self.font_size@[1]) <==> r is Some,
            r matches Some(t) ==> t == self.font_pixels@[ty * self.font_size@[0] + tx],
    {
        if tx < self.font_size[0] && ty < self.font_size[1] {
            let w = self.font_size[0];
            assert(w == self.font_size@[0]);
            assert(ty * w + tx < self.font_pixels.len());
            Some(self.font_pixels[ty * w + tx])
        } else {
            None
        }
    }

    /// The frame as bytes for the screen: see `bgra`.
    pub fn as_bgra(&self) -> (r: Vec<u8>)
        ensures
            r@ == bgra(self.pixels@),
    {
        let mut out: Vec<u8> = Vec::new();
        let mut i: usize = 0;
        assert(self.pixels@.take(0) =~= Seq::<Rgba>::empty());
        while i < self.pixels.len()
            invariant
                i <= self.pixels.len(),
                out@ == bgra(self.pixels@.take(i as int)),
            decreases self.pixels.len() - i,
        {
            let c = self.pixels[i];
            assert(self.pixels@.take(i + 1).drop_last() =~= self.pixels@.take(i as int));
            assert(self.pixels@.take(i + 1).last() == c);
            out.push(c.b);
            out.push(c.g);
            out.push(c.r);
            out.push(c.a);
            assert(out@ =~= bgra(self.pixels@.take(i as int)) + seq![c.b, c.g, c.r, c.a]);
            i = i + 1;
        }
        assert(self.pixels@.take(self.pixels.len() as int) =~= self.pixels@);
        out
    }

    pub fn width(&self) -> (r: usize)
        ensures
            r == self.width,
    {
        self.width
    }

    pub fn height(&self) -> (r: usize)
        ensures
            r == self.height,
    {
        self.height
    }
}

} // verus!
