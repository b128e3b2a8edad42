//! Image decoding: a flat digit stream is cut into layers of a fixed
//! width and height, the layers are stacked front to back with 2 as
//! the transparent digit, and the composite is rendered row by row.

use vstd::prelude::*;

verus! {

/// How often `digit` occurs in the data.
pub open spec fn count_occ(s: Seq<usize>, digit: usize) -> int
    decreases s.len(),
{
    if s.len() == 0 {
        0
    } else {
        count_occ(s.drop_last(), digit) + if s.last() == digit {
            1int
        } else {
            0int
        }
    }
}

proof fn lemma_count_occ_bound(s: Seq<usize>, digit: usize)
    ensures
        0 <= count_occ(s, digit) <= s.len(),
    decreases s.len(),
{
    if s.len() > 0 {
        lemma_count_occ_bound(s.drop_last(), digit);
    }
}

/// One layer of the image.
pub struct Layer {
    pub data: Vec<usize>,
    pub width: usize,
    pub height: usize,
}

impl Layer {
    /// How often `digit` occurs in the layer.
    pub fn count_occurrences_of(&self, digit: usize) -> (r: usize)
        ensures
            r == count_occ(self.data@, digit),
    {
        proof {
            lemma_count_occ_bound(self.data@, digit);
        }
        let mut r: usize = 0;
        let mut i: usize = 0;
        while i < self.data.len()
            invariant
                i <= self.data@.len(),
                r == count_occ(self.data@.take(i as int), digit),
                r <= i,
            decreases self.data@.len() - i,
        {
            proof {
                assert(self.data@.take(i + 1).drop_last() =~= self.data@.take(i as int));
                assert(self.data@.take(i + 1).last() == self.data@[i as int]);
            }
            if self.data[i] == digit {
                r = r + 1;
            }
            i = i + 1;
        }
        proof {
            assert(self.data@.take(self.data@.len() as int) =~= self.data@);
        }
        r
    }
}

/// Cuts the digit stream into layers of `width * height` digits; a
/// final short cut keeps its remainder.
pub fn get_layers(data: &Vec<usize>, width: usize, height: usize) -> (r: Vec<Layer>)
    requires
        width * height > 0,
        width * height <= usize::MAX,
    ensures
        r@.len() == (data@.len() + width * height - 1) as int / (width * height) as int,
        forall|k: int|
            0 <= k < r@.len() ==> {
                &&& (#[trigger] r@[k]).width == width
                &&& r@[k].height == height
                &&& r@[k].data@ == data@.subrange(
                    k * ((width * height) as int),
                    if (k + 1) * ((width * height) as int) <= data@.len() {
                        (k + 1) * ((width * height) as int)
                    } else {
                        data@.len() as int
                    },
                )
            },
{
    let chunk: usize = width * height;
    let mut r: Vec<Layer> = Vec::new();
    let mut start: usize = 0;
    proof {
        assert(0int == r@.len() * (chunk as int)) by (nonlinear_arith)
            requires
                r@.len() == 0,
        ;
    }
    while start < data.len()
        invariant
            chunk == width * height,
            chunk > 0,
            start <= data@.len(),
            start as int == r@.len() * (chunk as int),
            forall|k: int|
                0 <= k < r@.len() ==> {
                    &&& (#[trigger] r@[k]).width == width
                    &&& r@[k].height == height
                    &&& r@[k].data@ == data@.subrange(
                        k * (chunk as int),
                        if (k + 1) * (chunk as int) <= data@.len() {
                            (k + 1) * (chunk as int)
                        } else {
                            data@.len() as int
                        },
                    )
                },
        decreases data@.len() - start,
    {
        let end: usize = if data.len() - start >= chunk {
            start + chunk
        } else {
            data.len()
        };
        let mut piece: Vec<usize> = Vec::new();
        let mut i: usize = start;
        while i < end
            invariant
                start <= i <= end <= data@.len(),
                piece@ == data@.subrange(start as int, i as int),
            decreases end - i,
        {
            piece.push(data[i]);
            proof {
                assert(piece@ =~= data@.subrange(start as int, i + 1));
            }
            i = i + 1;
        }
        let ghost kpre = r@.len() as int;
        r.push(Layer { data: piece, width, height });
        proof {
            assert(kpre * (chunk as int) == start as int);
            assert((kpre + 1) * (chunk as int) == start + chunk) by (nonlinear_arith)
                requires
                    kpre * (chunk as int) == start as int,
            ;
            assert(r@.len() * (chunk as int) == start + chunk);
            assert(r@[kpre].data@ == data@.subrange(
                kpre * (chunk as int),
                if (kpre + 1) * (chunk as int) <= data@.len() {
                    (kpre + 1) * (chunk as int)
                } else {
                    data@.len() as int
                },
            ));
        }
        if end == data.len() && data.len() - start < chunk {
            proof {
                let c = chunk as int;
                let m = r@.len() as int;
                assert((m - 1) * c < data@.len() < m * c) by (nonlinear_arith)
                    requires
                        (m - 1) * c == start as int,
                        start < data@.len(),
                        data@.len() - start < c,
                ;
                assert((data@.len() + c - 1) as int / c == m) by (nonlinear_arith)
                    requires
                        c > 0,
                        (m - 1) * c < data@.len() < m * c,
                        m >= 1,
                ;
            }
            return r;
        }
        start = end;
    }
    proof {
        let c = chunk as int;
        let m = r@.len() as int;
        assert((data@.len() + c - 1) as int / c == m) by (nonlinear_arith)
            requires
                c > 0,
                data@.len() == m * c,
                m >= 0,
        ;
    }
    r
}

/// The visible digit of one pixel: the first layer's digit there that
/// is not the transparent 2, else 2.
pub open spec fn pixel_of(layers: Seq<Seq<usize>>, i: int) -> usize
    decreases layers.len(),
{
    if layers.len() == 0 {
        2
    } else if layers.first()[i] != 2 {
        layers.first()[i]
    } else {
        pixel_of(layers.drop_first(), i)
    }
}

/// A visible digit's glyph: marked pixels print 0, the rest a space.
pub open spec fn glyph(p: usize) -> char {
    if p == 1 {
        '0'
    } else {
        ' '
    }
}

/// One row of glyphs, separated by single spaces.
pub open spec fn render_row(pixels: Seq<usize>) -> Seq<char>
    decreases pixels.len(),
{
    if pixels.len() == 0 {
        Seq::<char>::empty()
    } else if pixels.len() == 1 {
        seq![glyph(pixels[0])]
    } else {
        render_row(pixels.drop_last()) + seq![' ', glyph(pixels.last())]
    }
}

/// The whole image: rows of `width` pixels, separated by newlines.
pub open spec fn render_image(pixels: Seq<usize>, width: int) -> Seq<char>
    decreases pixels.len(),
{
    if pixels.len() <= width || width <= 0 {
        render_row(pixels)
    } else {
        render_row(pixels.take(width)) + seq!['\n'] + render_image(pixels.skip(width), width)
    }
}

/// The views of the layers' digit streams.
pub open spec fn layer_views(layers: Seq<Layer>) -> Seq<Seq<usize>> {
    layers.map_values(|l: Layer| l.data@)
}

/// One more full row renders as everything before it, a newline, and
/// the row.
proof fn lemma_render_snoc(pixels: Seq<usize>, w: int, m: int)
    requires
        w >= 1,
        m >= 1,
        (m + 1) * w <= pixels.len(),
    ensures
        render_image(pixels.take((m + 1) * w), w) == render_image(pixels.take(m * w), w)
            + seq!['\n'] + render_row(pixels.subrange(m * w, (m + 1) * w)),
    decreases m,
{
    assert((m + 1) * w == m * w + w) by (nonlinear_arith);
    assert(m * w >= w) by (nonlinear_arith)
        requires
            m >= 1,
            w >= 1,
    ;
    let big = pixels.take(m * w + w);
    let small = pixels.take(m * w);
    assert(big.take(w) =~= pixels.take(w));
    assert(small.take(w) =~= pixels.take(w));
    if m == 1 {
        assert(big.skip(w) =~= pixels.subrange(w, 2 * w));
        assert(render_image(big, w) == render_row(pixels.take(w)) + seq!['\n'] + render_image(
            pixels.subrange(w, 2 * w),
            w,
        ));
        assert(render_image(pixels.subrange(w, 2 * w), w) == render_row(
            pixels.subrange(w, 2 * w),
        ));
        assert(small =~= pixels.take(w));
        assert(render_image(small, w) == render_row(pixels.take(w)));
    } else {
        lemma_render_snoc(pixels.skip(w), w, m - 1);
        assert(m * w > w) by (nonlinear_arith)
            requires
                m >= 2,
                w >= 1,
        ;
        assert(big.skip(w) =~= pixels.skip(w).take(m * w)) by {
            assert(m * w == (m + 1) * w - w) by (nonlinear_arith);
        }
        assert(small.skip(w) =~= pixels.skip(w).take((m - 1) * w)) by {
            assert((m - 1) * w == m * w - w) by (nonlinear_arith);
        }
        assert(render_image(big, w) == render_row(pixels.take(w)) + seq!['\n'] + render_image(
            pixels.skip(w).take(m * w),
            w,
        ));
        assert(render_image(small, w) == render_row(pixels.take(w)) + seq!['\n'] + render_image(
            pixels.skip(w).take((m - 1) * w),
            w,
        ));
        assert(pixels.skip(w).subrange((m - 1) * w, m * w) =~= pixels.subrange(m * w, (m + 1) * w))
            by {
            assert((m - 1) * w == m * w - w && m * w == (m + 1) * w - w) by (nonlinear_arith);
        }
        assert(render_image(big, w) =~= render_image(small, w) + seq!['\n'] + render_row(
            pixels.subrange(m * w, (m + 1) * w),
        ));
    }
}

/// Flattens the stack front to back and renders it: each pixel shows
/// the first non-transparent digit of its column of layers.
pub fn get_image(layers: Vec<Layer>, width: usize) -> (r: String)
    requires
        layers@.len() > 0,
        width > 0,
        forall|k: int|
            0 <= k < layers@.len() ==> (#[trigger] layers@[k]).data@.len()
                == layers@[0].data@.len(),
        (layers@[0].data@.len() as int) % (width as int) == 0,
    ensures
        r@ == render_image(
            Seq::new(layers@[0].data@.len(), |i: int| pixel_of(layer_views(layers@), i)),
            width as int,
        ),
{
    let n: usize = layers[0].data.len();
    let ghost pix = Seq::new(layers@[0].data@.len(), |i: int| pixel_of(layer_views(layers@), i));
    let mut flat: Vec<usize> = Vec::new();
    let mut i: usize = 0;
    while i < n
        invariant
            i <= n,
            n == layers@[0].data@.len(),
            layers@.len() > 0,
            forall|k: int|
                0 <= k < layers@.len() ==> (#[trigger] layers@[k]).data@.len() == n,
            pix == Seq::new(n as nat, |q: int| pixel_of(layer_views(layers@), q)),
            flat@ == pix.take(i as int),
        decreases n - i,
    {
        proof {
            assert(layer_views(layers@).take(0int) =~= Seq::<Seq<usize>>::empty());
            assert(layer_views(layers@).skip(0int) =~= layer_views(layers@));
        }
        let mut p: usize = 2;
        let mut k: usize = 0;
        while k < layers.len()
            invariant
                k <= layers@.len(),
                i < n,
                layers@.len() > 0,
                forall|q: int|
                    0 <= q < layers@.len() ==> (#[trigger] layers@[q]).data@.len() == n,
                p == 2 <==> pixel_of(layer_views(layers@).take(k as int), i as int) == 2,
                p != 2 ==> p == pixel_of(layer_views(layers@).take(k as int), i as int),
                p == 2 ==> pixel_of(layer_views(layers@), i as int) == pixel_of(
                    layer_views(layers@).skip(k as int),
                    i as int,
                ),
            decreases layers@.len() - k,
        {
            proof {
                lemma_pixel_take_step(layer_views(layers@), k as int, i as int);
            }
            if p == 2 {
                let cand: usize = layers[k].data[i];
                if cand != 2 {
                    p = cand;
                }
            }
            k = k + 1;
        }
        proof {
            assert(layer_views(layers@).take(layers@.len() as int) =~= layer_views(layers@));
            assert(layer_views(layers@).skip(layers@.len() as int) =~= Seq::<Seq<usize>>::empty());
            assert(p == pixel_of(layer_views(layers@), i as int));
            assert(pix[i as int] == p);
        }
        flat.push(p);
        proof {
            assert(flat@ =~= pix.take(i + 1));
        }
        i = i + 1;
    }
    proof {
        assert(flat@ =~= pix);
    }
    let mut s = String::new();
    let mut row_start: usize = 0;
    let ghost mrows: int = 0;
    while row_start < n
        invariant
            n == pix.len(),
            flat@ == pix,
            width > 0,
            row_start <= n,
            row_start as int == mrows * (width as int),
            mrows >= 0,
            (n as int) % (width as int) == 0,
            mrows == 0 ==> s@ == Seq::<char>::empty(),
            mrows > 0 ==> s@ == render_image(pix.take(row_start as int), width as int),
        decreases n - row_start,
    {
        proof {
            assert(row_start + width <= n) by (nonlinear_arith)
                requires
                    (n as int) % (width as int) == 0,
                    row_start as int == mrows * (width as int),
                    mrows >= 0,
                    width > 0,
                    row_start < n,
            ;
        }
        if row_start > 0 {
            s.append("\n");
            proof {
                reveal_strlit("\n");
            }
        }
        let mut c: usize = 0;
        let ghost srow = s@;
        while c < width
            invariant
                0 <= c <= width,
                row_start + width <= n,
                n == pix.len(),
                flat@ == pix,
                s@ == srow + render_row(pix.subrange(row_start as int, row_start + c)),
            decreases width - c,
        {
            if c > 0 {
                s.append(" ");
                proof {
                    reveal_strlit(" ");
                }
            }
            let pv: usize = flat[row_start + c];
            if pv == 1 {
                s.append("0");
                proof {
                    reveal_strlit("0");
                }
            } else {
                s.append(" ");
                proof {
                    reveal_strlit(" ");
                }
            }
            proof {
                let rp = pix.subrange(row_start as int, row_start + c + 1);
                assert(rp.drop_last() =~= pix.subrange(row_start as int, row_start + c));
                assert(rp.last() == pix[row_start + c]);
                if c == 0 {
                    assert(render_row(rp) =~= seq![glyph(pix[row_start as int])]);
                }
                assert(s@ =~= srow + render_row(rp));
            }
            c = c + 1;
        }
        proof {
            let w = width as int;
            if mrows == 0 {
                assert(pix.take(w).subrange(0int, w) =~= pix.subrange(0int, w));
                if n == width {
                    assert(pix.take(w) =~= pix.subrange(0int, w));
                    assert(s@ =~= render_image(pix.take(w), w));
                } else {
                    assert(pix.take(w) =~= pix.subrange(0int, w));
                    assert(render_image(pix.take(w), w) == render_row(pix.take(w)));
                    assert(s@ =~= render_image(pix.take(w), w));
                }
            } else {
                assert((mrows + 1) * w == row_start + width) by (nonlinear_arith)
                    requires
                        row_start as int == mrows * w,
                        w == width as int,
                ;
                lemma_render_snoc(pix, w, mrows);
                assert(s@ =~= render_image(pix.take(mrows * w), w) + seq!['\n'] + render_row(
                    pix.subrange(mrows * w, (mrows + 1) * w),
                ));
                assert(s@ =~= render_image(pix.take(row_start + width), w));
            }
            mrows = mrows + 1;
        }
        row_start = row_start + width;
    }
    proof {
        if n == 0 {
            assert(render_image(pix, width as int) == render_row(pix));
            assert(render_row(pix) =~= Seq::<char>::empty());
            assert(s@ =~= render_image(pix, width as int));
        } else {
            assert(pix.take(n as int) =~= pix);
        }
    }
    s
}

/// Looking one layer deeper either keeps the pixel transparent or
/// settles it.
proof fn lemma_pixel_take_step(views: Seq<Seq<usize>>, k: int, i: int)
    requires
        0 <= k < views.len(),
    ensures
        pixel_of(views.take(k), i) != 2 ==> pixel_of(views.take(k + 1), i) == pixel_of(
            views.take(k),
            i,
        ),
        pixel_of(views.take(k), i) == 2 ==> pixel_of(views.take(k + 1), i) == (if views[k][i] != 2 {
            views[k][i]
        } else {
            2
        }),
        pixel_of(views.skip(k), i) == (if views[k][i] != 2 {
            views[k][i]
        } else {
            pixel_of(views.skip(k + 1), i)
        }),
    decreases k,
{
    if k == 0 {
        assert(views.take(0) =~= Seq::<Seq<usize>>::empty());
        assert(views.take(1).first() == views[0]);
        assert(views.take(1).drop_first() =~= Seq::<Seq<usize>>::empty());
        assert(views.skip(0) =~= views);
        assert(views.first() == views[0]);
        assert(views.drop_first() =~= views.skip(1));
    } else {
        lemma_pixel_take_step(views, k - 1, i);
        assert(views.take(k).first() == views[0]);
        assert(views.take(k + 1).first() == views[0]);
        assert(views.take(k).drop_first() =~= views.skip(1).take(k - 1));
        assert(views.take(k + 1).drop_first() =~= views.skip(1).take(k));
        lemma_pixel_take_step(views.skip(1), k - 1, i);
        assert(views.skip(1)[k - 1] == views[k]);
        assert(views.skip(k) =~= views.skip(1).skip(k - 1));
        assert(views.skip(k + 1) =~= views.skip(1).skip(k));
    }
}

/// The layer with the fewest zeroes (ties to the earliest) scores the
/// product of its ones and twos.
pub fn solve_1(input: &Vec<usize>) -> (r: usize)
    requires
        input@.len() > 0,
    ensures
        exists|j: int|
            {
                &&& 0 <= j < spec_layers(input@, 25, 6).len()
                &&& (forall|k: int|
                    0 <= k < spec_layers(input@, 25, 6).len() ==> count_occ(
                        spec_layers(input@, 25, 6)[j],
                        0,
                    ) <= count_occ(#[trigger] spec_layers(input@, 25, 6)[k], 0))
                &&& (forall|k: int|
                    0 <= k < j ==> count_occ(#[trigger] spec_layers(input@, 25, 6)[k], 0)
                        > count_occ(spec_layers(input@, 25, 6)[j], 0))
                &&& r == count_occ(spec_layers(input@, 25, 6)[j], 1) * count_occ(
                    spec_layers(input@, 25, 6)[j],
                    2,
                )
            },
{
    let width: usize = 25;
    let height: usize = 6;
    let layers = get_layers(input, width, height);
    proof {
        lemma_layers_match(input@, layers@, 25, 6);
        assert(layers@.len() > 0);
    }
    let ghost lv = spec_layers(input@, 25, 6);
    let mut best: usize = 0;
    let mut best_count: usize = layers[0].count_occurrences_of(0);
    let mut k: usize = 1;
    while k < layers.len()
        invariant
            1 <= k <= layers@.len(),
            best < k,
            lv == spec_layers(input@, 25, 6),
            lv.len() == layers@.len(),
            forall|q: int| 0 <= q < lv.len() ==> (#[trigger] layers@[q]).data@ == lv[q],
            best_count == count_occ(lv[best as int], 0),
            forall|q: int| 0 <= q < k ==> best_count <= count_occ(#[trigger] lv[q], 0),
            forall|q: int| 0 <= q < best ==> count_occ(#[trigger] lv[q], 0) > best_count,
        decreases layers@.len() - k,
    {
        let c = layers[k].count_occurrences_of(0);
        if c < best_count {
            best = k;
            best_count = c;
        }
        k = k + 1;
    }
    let ones = layers[best].count_occurrences_of(1);
    let twos = layers[best].count_occurrences_of(2);
    proof {
        lemma_count_occ_bound(lv[best as int], 1);
        lemma_count_occ_bound(lv[best as int], 2);
        assert(lv[best as int].len() <= 150);
        assert(ones * twos <= 150 * 150) by (nonlinear_arith)
            requires
                0 <= ones <= 150,
                0 <= twos <= 150,
        ;
    }
    ones * twos
}

/// The layers the digit stream cuts into, as raw sequences.
pub open spec fn spec_layers(data: Seq<usize>, width: int, height: int) -> Seq<Seq<usize>> {
    Seq::new(
        ((data.len() + width * height - 1) / (width * height)) as nat,
        |k: int|
            data.subrange(
                k * width * height,
                if (k + 1) * width * height <= data.len() {
                    (k + 1) * width * height
                } else {
                    data.len() as int
                },
            ),
    )
}

proof fn lemma_layers_match(data: Seq<usize>, layers: Seq<Layer>, width: int, height: int)
    requires
        width == 25,
        height == 6,
        layers.len() == (data.len() + 150 - 1) as int / 150,
        forall|k: int|
            0 <= k < layers.len() ==> (#[trigger] layers[k]).data@ == data.subrange(
                k * 150,
                if (k + 1) * 150 <= data.len() {
                    (k + 1) * 150
                } else {
                    data.len() as int
                },
            ),
    ensures
        spec_layers(data, 25, 6).len() == layers.len(),
        forall|k: int|
            0 <= k < layers.len() ==> (#[trigger] layers[k]).data@ == spec_layers(data, 25, 6)[k],
{
    assert forall|k: int|
        0 <= k < layers.len() implies (#[trigger] layers[k]).data@ == spec_layers(data, 25, 6)[k] by {
        assert(k * 25 * 6 == k * 150) by (nonlinear_arith);
        assert((k + 1) * 25 * 6 == (k + 1) * 150) by (nonlinear_arith);
    }
}

/// Decodes and renders the 25 by 6 image.
pub fn solve_2(input: &Vec<usize>) -> (r: String)
    requires
        input@.len() > 0,
        input@.len() % 150 == 0,
    ensures
        r@ == render_image(
            Seq::new(
                (if input@.len() <= 150 {
                    input@.len() as int
                } else {
                    150
                }) as nat,
                |i: int| pixel_of(spec_layers(input@, 25, 6), i),
            ),
            25,
        ),
{
    let width: usize = 25;
    let height: usize = 6;
    let layers = get_layers(input, width, height);
    proof {
        lemma_layers_match(input@, layers@, 25, 6);
        assert(layers@.len() > 0);
        assert(layers@[0].data@.len() == 150) by {
            assert(input@.len() >= 150) by (nonlinear_arith)
                requires
                    input@.len() % 150 == 0,
                    input@.len() > 0,
            ;
        }
        assert forall|k: int|
            0 <= k < layers@.len() implies (#[trigger] layers@[k]).data@.len() == 150 by {
            assert((k + 1) * 150 <= input@.len() || k == layers@.len() - 1);
            assert((k + 1) * 150 <= input@.len()) by (nonlinear_arith)
                requires
                    input@.len() % 150 == 0,
                    0 <= k < (input@.len() + 149) as int / 150,
            ;
        }
        assert(layer_views(layers@) =~~= spec_layers(input@, 25, 6));
    }
    get_image(layers, width)
}

} // verus!
