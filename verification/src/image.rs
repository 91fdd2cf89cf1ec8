//! The pixel-buffer type every pipeline stage works on, and the verified
//! primitives over it: cropping, horizontal and vertical concatenation,
//! right-padding with blank pixels, and rescaling to a target height.

use vstd::prelude::*;
use vstd::arithmetic::mul::{
    lemma_mul_inequality, lemma_mul_nonnegative, lemma_mul_strict_inequality,
};
use vstd::arithmetic::div_mod::{
    lemma_div_by_multiple, lemma_div_pos_is_pos, lemma_mod_bound, lemma_multiply_divide_lt,
};
use crate::geometry::Rect;
use crate::layout::{scaled_width, spec_scaled_width};
use crate::TileError;

verus! {

/// A rectangular pixel buffer, row-major, `channels` bytes per pixel.
///
/// Values are never mutated once produced: every transform yields a new
/// `Image`.
#[derive(Clone, Debug)]
pub struct Image {
    pub width: usize,
    pub height: usize,
    pub channels: usize,
    pub rows: Vec<Vec<u8>>,
}

impl Image {
    /// Well-formedness: one byte row per pixel row, each of exactly
    /// `width * channels` bytes, and at least one channel.
    pub open spec fn wf(self) -> bool {
        &&& self.channels >= 1
        &&& self.rows.len() == self.height
        &&& forall|i: int|
            0 <= i < self.height ==> (#[trigger] self.rows@[i])@.len() == self.width
                * self.channels
    }

    /// The bytes of pixel row `r`.
    pub open spec fn row(self, r: int) -> Seq<u8> {
        self.rows@[r]@
    }

    /// All pixel rows, as mathematical byte sequences.
    pub open spec fn row_seqs(self) -> Seq<Seq<u8>> {
        Seq::new(self.rows@.len(), |r: int| self.rows@[r]@)
    }

    /// The `channels` bytes of the pixel at row `r`, column `c`.
    pub open spec fn pixel(self, r: int, c: int) -> Seq<u8> {
        self.row(r).subrange(c * self.channels, c * self.channels + self.channels)
    }
}

/// A sequence of `n` zero-valued (blank) bytes.
pub open spec fn zero_seq(n: int) -> Seq<u8> {
    Seq::new(n as nat, |i: int| 0u8)
}

/// Builds an image from raw pixel rows, validating the dimensions.
///
/// Succeeds exactly when `channels` is at least one and every row holds
/// exactly `width * channels` bytes; the row count becomes the height.
pub fn image_from_rows(width: usize, channels: usize, rows: Vec<Vec<u8>>) -> (r: Result<
    Image,
    TileError,
>)
    ensures
        match r {
            Ok(img) => {
                &&& channels >= 1
                &&& forall|i: int|
                    0 <= i < rows@.len() ==> (#[trigger] rows@[i])@.len() == width * channels
                &&& img.wf()
                &&& img.width == width
                &&& img.height == rows@.len()
                &&& img.channels == channels
                &&& forall|i: int| 0 <= i < rows@.len() ==> img.row(i) == (#[trigger] rows@[i])@
            },
            Err(e) => {
                &&& e == TileError::MalformedImage
                &&& (channels < 1 || exists|i: int|
                    0 <= i < rows@.len() && (#[trigger] rows@[i])@.len() != width * channels)
            },
        },
{
    if channels < 1 {
        return Err(TileError::MalformedImage);
    }
    let expected: u128 = crate::layout::wide_mul(width, channels);
    let n = rows.len();
    let mut i: usize = 0;
    while i < n
        invariant
            n == rows@.len(),
            i <= n,
            expected == (width as int) * (channels as int),
            forall|k: int| 0 <= k < i ==> (#[trigger] rows@[k])@.len() == width * channels,
        decreases n - i,
    {
        if (rows[i].len() as u128) != expected {
            return Err(TileError::MalformedImage);
        }
        i = i + 1;
    }
    Ok(Image { width, height: n, channels, rows })
}

impl Image {
    /// Decides well-formedness at run time, so that unverified callers
    /// can establish it before handing an image to the pipeline.
    pub fn is_wf(&self) -> (b: bool)
        ensures
            b == self.wf(),
    {
        if self.channels < 1 {
            return false;
        }
        if self.rows.len() != self.height {
            return false;
        }
        let expected: u128 = crate::layout::wide_mul(self.width, self.channels);
        let mut i: usize = 0;
        while i < self.height
            invariant
                i <= self.height,
                self.height == self.rows@.len(),
                expected == (self.width as int) * (self.channels as int),
                forall|k: int|
                    0 <= k < i ==> (#[trigger] self.rows@[k])@.len() == self.width
                        * self.channels,
            decreases self.height - i,
        {
            if (self.rows[i].len() as u128) != expected {
                return false;
            }
            i = i + 1;
        }
        true
    }
}

/// The bytes that pixel row `i` of a crop of `src` at `rect` must hold.
pub open spec fn cropped_row(src: Image, rect: Rect, i: int) -> Seq<u8> {
    src.row(rect.y + i).subrange(
        rect.x * src.channels,
        (rect.x + rect.width) * src.channels,
    )
}

impl Image {
    /// Extracts the sub-rectangle `rect` of this image.
    pub fn crop(&self, rect: &Rect) -> (out: Image)
        requires
            self.wf(),
            rect.right() <= self.width,
            rect.bottom() <= self.height,
        ensures
            out.wf(),
            out.width == rect.width,
            out.height == rect.height,
            out.channels == self.channels,
            forall|i: int| 0 <= i < rect.height ==> out.row(i) == cropped_row(*self, *rect, i),
    {
        let ch = self.channels;
        let mut out_rows: Vec<Vec<u8>> = Vec::new();
        let mut i: usize = 0;
        while i < rect.height
            invariant
                self.wf(),
                ch == self.channels,
                rect.right() <= self.width,
                rect.bottom() <= self.height,
                i <= rect.height,
                out_rows@.len() == i,
                forall|k: int|
                    0 <= k < i ==> (#[trigger] out_rows@[k])@ == cropped_row(*self, *rect, k),
                forall|k: int|
                    0 <= k < i ==> (#[trigger] out_rows@[k])@.len() == rect.width * ch,
            decreases rect.height - i,
        {
            let src_row: &Vec<u8> = &self.rows[rect.y + i];
            let n0: usize = src_row.len();
            proof {
                assert(n0 == self.width * ch);
                lemma_mul_inequality((rect.x + rect.width) as int, self.width as int, ch as int);
                lemma_mul_inequality(rect.x as int, (rect.x + rect.width) as int, ch as int);
            }
            let start: usize = rect.x * ch;
            let end: usize = (rect.x + rect.width) * ch;
            let mut row: Vec<u8> = Vec::new();
            let mut j: usize = start;
            while j < end
                invariant
                    start <= j <= end,
                    end <= src_row@.len(),
                    row@ == src_row@.subrange(start as int, j as int),
                decreases end - j,
            {
                row.push(src_row[j]);
                proof {
                    assert(src_row@.subrange(start as int, (j + 1) as int) =~= src_row@.subrange(
                        start as int,
                        j as int,
                    ).push(src_row@[j as int]));
                }
                j = j + 1;
            }
            proof {
                assert(row@.len() == end - start);
                assert((rect.x + rect.width) * ch == rect.x * ch + rect.width * ch)
                    by (nonlinear_arith);
            }
            out_rows.push(row);
            i = i + 1;
        }
        Image { width: rect.width, height: rect.height, channels: ch, rows: out_rows }
    }
}

impl Image {
    /// Right-pads this image with blank (zero-valued) pixels up to
    /// `target` width.  Padding to the image's own width is a no-op.
    pub fn pad_to_width(&self, target: usize) -> (out: Image)
        requires
            self.wf(),
            self.width <= target,
            target * self.channels <= usize::MAX,
        ensures
            out.wf(),
            out.width == target,
            out.height == self.height,
            out.channels == self.channels,
            forall|r: int|
                0 <= r < self.height ==> out.row(r) == self.row(r) + zero_seq(
                    (target - self.width) * self.channels,
                ),
            self.width == target ==> forall|r: int| 0 <= r < self.height ==> out.row(r)
                == self.row(r),
    {
        let ch = self.channels;
        proof {
            lemma_mul_inequality(self.width as int, target as int, ch as int);
            assert((target - self.width) * ch == target * ch - self.width * ch)
                by (nonlinear_arith);
        }
        let pad_len: usize = target * ch - self.width * ch;
        let mut out_rows: Vec<Vec<u8>> = Vec::new();
        let mut r: usize = 0;
        while r < self.height
            invariant
                self.wf(),
                ch == self.channels,
                self.width <= target,
                pad_len == (target - self.width) * ch,
                self.width * ch + pad_len == target * ch,
                target * ch <= usize::MAX,
                r <= self.height,
                out_rows@.len() == r,
                forall|k: int|
                    0 <= k < r ==> (#[trigger] out_rows@[k])@ == self.row(k) + zero_seq(
                        pad_len as int,
                    ),
                forall|k: int| 0 <= k < r ==> (#[trigger] out_rows@[k])@.len() == target * ch,
            decreases self.height - r,
        {
            let src_row: &Vec<u8> = &self.rows[r];
            let m: usize = src_row.len();
            let mut row: Vec<u8> = Vec::new();
            let mut j: usize = 0;
            while j < m
                invariant
                    j <= m,
                    m == src_row@.len(),
                    row@ == src_row@.subrange(0, j as int),
                decreases m - j,
            {
                row.push(src_row[j]);
                proof {
                    assert(src_row@.subrange(0, (j + 1) as int) =~= src_row@.subrange(
                        0,
                        j as int,
                    ).push(src_row@[j as int]));
                }
                j = j + 1;
            }
            proof {
                assert(src_row@.subrange(0, m as int) =~= src_row@);
            }
            let mut p: usize = 0;
            while p < pad_len
                invariant
                    p <= pad_len,
                    row@ == src_row@ + zero_seq(p as int),
                decreases pad_len - p,
            {
                row.push(0u8);
                proof {
                    assert(src_row@ + zero_seq((p + 1) as int) =~= (src_row@ + zero_seq(
                        p as int,
                    )).push(0u8));
                }
                p = p + 1;
            }
            out_rows.push(row);
            r = r + 1;
        }
        let out = Image { width: target, height: self.height, channels: ch, rows: out_rows };
        proof {
            if self.width == target {
                assert forall|k: int| 0 <= k < self.height implies out.row(k) == self.row(
                    k,
                ) by {
                    assert(out.row(k) =~= self.row(k));
                }
            }
        }
        out
    }
}

/// The total width of a horizontal concatenation: the sum of the widths.
pub open spec fn hcat_width(imgs: Seq<Image>) -> int
    decreases imgs.len(),
{
    if imgs.len() == 0 {
        0
    } else {
        hcat_width(imgs.drop_last()) + imgs.last().width
    }
}

/// Pixel row `r` of a horizontal concatenation: the rows side by side,
/// in order.
pub open spec fn hcat_row(imgs: Seq<Image>, r: int) -> Seq<u8>
    decreases imgs.len(),
{
    if imgs.len() == 0 {
        Seq::empty()
    } else {
        hcat_row(imgs.drop_last(), r) + imgs.last().row(r)
    }
}

proof fn lemma_hcat_prefix_step(imgs: Seq<Image>, i: int)
    requires
        0 <= i < imgs.len(),
    ensures
        hcat_width(imgs.subrange(0, i + 1)) == hcat_width(imgs.subrange(0, i)) + imgs[i].width,
        forall|r: int| hcat_row(imgs.subrange(0, i + 1), r) == hcat_row(imgs.subrange(0, i), r)
            + imgs[i].row(r),
{
    assert(imgs.subrange(0, i + 1).drop_last() =~= imgs.subrange(0, i));
    assert(imgs.subrange(0, i + 1).last() == imgs[i]);
}

proof fn lemma_hcat_width_prefix_le(imgs: Seq<Image>, i: int)
    requires
        0 <= i <= imgs.len(),
    ensures
        hcat_width(imgs.subrange(0, i)) <= hcat_width(imgs),
    decreases imgs.len() - i,
{
    if i == imgs.len() {
        assert(imgs.subrange(0, i) =~= imgs);
    } else {
        lemma_hcat_width_prefix_le(imgs, i + 1);
        lemma_hcat_prefix_step(imgs, i);
    }
}

proof fn lemma_hcat_row_len(imgs: Seq<Image>, r: int, ch: int)
    requires
        forall|i: int| 0 <= i < imgs.len() ==> (#[trigger] imgs[i]).wf(),
        forall|i: int| 0 <= i < imgs.len() ==> (#[trigger] imgs[i]).channels == ch,
        forall|i: int| 0 <= i < imgs.len() ==> r < (#[trigger] imgs[i]).height,
        0 <= r,
    ensures
        hcat_row(imgs, r).len() == hcat_width(imgs) * ch,
    decreases imgs.len(),
{
    if imgs.len() == 0 {
        assert(hcat_width(imgs) * ch == 0) by (nonlinear_arith)
            requires
                hcat_width(imgs) == 0,
        ;
    } else {
        lemma_hcat_row_len(imgs.drop_last(), r, ch);
        let a = hcat_width(imgs.drop_last());
        let b = imgs.last().width as int;
        assert((a + b) * ch == a * ch + b * ch) by (nonlinear_arith);
    }
}

/// Concatenates the images left to right into one image.
///
/// All inputs must share one height and one channel count; the result's
/// width is the sum of the inputs' widths.
pub fn hconcat(imgs: &Vec<Image>) -> (out: Image)
    requires
        imgs@.len() >= 1,
        forall|i: int| 0 <= i < imgs@.len() ==> (#[trigger] imgs@[i]).wf(),
        forall|i: int| 0 <= i < imgs@.len() ==> (#[trigger] imgs@[i]).height == imgs@[0].height,
        forall|i: int|
            0 <= i < imgs@.len() ==> (#[trigger] imgs@[i]).channels == imgs@[0].channels,
        hcat_width(imgs@) <= usize::MAX,
        hcat_width(imgs@) * imgs@[0].channels <= usize::MAX,
    ensures
        out.wf(),
        out.height == imgs@[0].height,
        out.channels == imgs@[0].channels,
        out.width == hcat_width(imgs@),
        forall|r: int| 0 <= r < out.height ==> out.row(r) == hcat_row(imgs@, r),
{
    let n = imgs.len();
    let h = imgs[0].height;
    let ch = imgs[0].channels;
    let mut total_w: usize = 0;
    let mut i: usize = 0;
    proof {
        assert(imgs@.subrange(0, 0) =~= Seq::<Image>::empty());
    }
    while i < n
        invariant
            n == imgs@.len(),
            i <= n,
            hcat_width(imgs@) <= usize::MAX,
            total_w == hcat_width(imgs@.subrange(0, i as int)),
        decreases n - i,
    {
        proof {
            lemma_hcat_prefix_step(imgs@, i as int);
            lemma_hcat_width_prefix_le(imgs@, i + 1);
        }
        total_w = total_w + imgs[i].width;
        i = i + 1;
    }
    proof {
        assert(imgs@.subrange(0, n as int) =~= imgs@);
    }
    let mut out_rows: Vec<Vec<u8>> = Vec::new();
    let mut r: usize = 0;
    while r < h
        invariant
            n == imgs@.len(),
            n >= 1,
            h == imgs@[0].height,
            ch == imgs@[0].channels,
            forall|k: int| 0 <= k < n ==> (#[trigger] imgs@[k]).wf(),
            forall|k: int| 0 <= k < n ==> (#[trigger] imgs@[k]).height == h,
            forall|k: int| 0 <= k < n ==> (#[trigger] imgs@[k]).channels == ch,
            total_w == hcat_width(imgs@),
            r <= h,
            out_rows@.len() == r,
            forall|k: int| 0 <= k < r ==> (#[trigger] out_rows@[k])@ == hcat_row(imgs@, k),
            forall|k: int| 0 <= k < r ==> (#[trigger] out_rows@[k])@.len() == total_w * ch,
        decreases h - r,
    {
        let mut row: Vec<u8> = Vec::new();
        let mut i2: usize = 0;
        proof {
            assert(imgs@.subrange(0, 0) =~= Seq::<Image>::empty());
        }
        while i2 < n
            invariant
                n == imgs@.len(),
                r < h,
                forall|k: int| 0 <= k < n ==> (#[trigger] imgs@[k]).wf(),
                forall|k: int| 0 <= k < n ==> (#[trigger] imgs@[k]).height == h,
                i2 <= n,
                row@ == hcat_row(imgs@.subrange(0, i2 as int), r as int),
            decreases n - i2,
        {
            let src_row: &Vec<u8> = &imgs[i2].rows[r];
            let m: usize = src_row.len();
            let ghost before = row@;
            let mut j: usize = 0;
            while j < m
                invariant
                    j <= m,
                    m == src_row@.len(),
                    row@ == before + src_row@.subrange(0, j as int),
                decreases m - j,
            {
                row.push(src_row[j]);
                proof {
                    assert(before + src_row@.subrange(0, (j + 1) as int) =~= (before
                        + src_row@.subrange(0, j as int)).push(src_row@[j as int]));
                }
                j = j + 1;
            }
            proof {
                assert(src_row@.subrange(0, m as int) =~= src_row@);
                lemma_hcat_prefix_step(imgs@, i2 as int);
            }
            i2 = i2 + 1;
        }
        proof {
            assert(imgs@.subrange(0, n as int) =~= imgs@);
            lemma_hcat_row_len(imgs@, r as int, ch as int);
        }
        out_rows.push(row);
        r = r + 1;
    }
    Image { width: total_w, height: h, channels: ch, rows: out_rows }
}

/// The total height of a vertical concatenation: the sum of the heights.
pub open spec fn vcat_height(imgs: Seq<Image>) -> int
    decreases imgs.len(),
{
    if imgs.len() == 0 {
        0
    } else {
        vcat_height(imgs.drop_last()) + imgs.last().height
    }
}

/// The pixel rows of a vertical concatenation: all rows of each image in
/// turn, top to bottom.
pub open spec fn vcat_rows(imgs: Seq<Image>) -> Seq<Seq<u8>>
    decreases imgs.len(),
{
    if imgs.len() == 0 {
        Seq::empty()
    } else {
        vcat_rows(imgs.drop_last()) + imgs.last().row_seqs()
    }
}

proof fn lemma_vcat_prefix_step(imgs: Seq<Image>, i: int)
    requires
        0 <= i < imgs.len(),
    ensures
        vcat_height(imgs.subrange(0, i + 1)) == vcat_height(imgs.subrange(0, i)) + imgs[i].height,
        vcat_rows(imgs.subrange(0, i + 1)) == vcat_rows(imgs.subrange(0, i))
            + imgs[i].row_seqs(),
{
    assert(imgs.subrange(0, i + 1).drop_last() =~= imgs.subrange(0, i));
    assert(imgs.subrange(0, i + 1).last() == imgs[i]);
}

proof fn lemma_vcat_len(imgs: Seq<Image>)
    requires
        forall|i: int| 0 <= i < imgs.len() ==> (#[trigger] imgs[i]).wf(),
    ensures
        vcat_rows(imgs).len() == vcat_height(imgs),
        vcat_height(imgs) >= 0,
    decreases imgs.len(),
{
    if imgs.len() > 0 {
        let prefix = imgs.drop_last();
        assert(forall|i: int| 0 <= i < prefix.len() ==> prefix[i] == imgs[i]);
        lemma_vcat_len(prefix);
        assert(imgs[imgs.len() - 1].wf());
    }
}

proof fn lemma_vcat_row_lens(imgs: Seq<Image>, w: int, ch: int)
    requires
        forall|i: int| 0 <= i < imgs.len() ==> (#[trigger] imgs[i]).wf(),
        forall|i: int| 0 <= i < imgs.len() ==> (#[trigger] imgs[i]).width == w,
        forall|i: int| 0 <= i < imgs.len() ==> (#[trigger] imgs[i]).channels == ch,
    ensures
        forall|k: int|
            0 <= k < vcat_rows(imgs).len() ==> (#[trigger] vcat_rows(imgs)[k]).len() == w * ch,
    decreases imgs.len(),
{
    if imgs.len() > 0 {
        let prefix = imgs.drop_last();
        assert(forall|i: int| 0 <= i < prefix.len() ==> prefix[i] == imgs[i]);
        lemma_vcat_row_lens(prefix, w, ch);
        let last = imgs[imgs.len() - 1];
        assert(last.wf() && last.width == w && last.channels == ch);
        assert forall|k: int| 0 <= k < vcat_rows(imgs).len() implies (#[trigger] vcat_rows(
            imgs,
        )[k]).len() == w * ch by {
            if k < vcat_rows(prefix).len() {
                assert(vcat_rows(imgs)[k] == vcat_rows(prefix)[k]);
            } else {
                assert(vcat_rows(imgs)[k] == last.row_seqs()[k - vcat_rows(prefix).len()]);
            }
        }
    }
}

/// Stacks the images top to bottom into one image.
///
/// All inputs must share one width and one channel count; the result's
/// height is the sum of the inputs' heights.
pub fn vconcat(imgs: &Vec<Image>) -> (out: Image)
    requires
        imgs@.len() >= 1,
        forall|i: int| 0 <= i < imgs@.len() ==> (#[trigger] imgs@[i]).wf(),
        forall|i: int| 0 <= i < imgs@.len() ==> (#[trigger] imgs@[i]).width == imgs@[0].width,
        forall|i: int|
            0 <= i < imgs@.len() ==> (#[trigger] imgs@[i]).channels == imgs@[0].channels,
    ensures
        out.wf(),
        out.width == imgs@[0].width,
        out.channels == imgs@[0].channels,
        out.height == vcat_height(imgs@),
        out.row_seqs() == vcat_rows(imgs@),
{
    let n = imgs.len();
    let w = imgs[0].width;
    let ch = imgs[0].channels;
    let mut out_rows: Vec<Vec<u8>> = Vec::new();
    let mut i: usize = 0;
    proof {
        assert(imgs@.subrange(0, 0) =~= Seq::<Image>::empty());
        assert(seqs_of(out_rows@) =~= vcat_rows(imgs@.subrange(0, 0)));
    }
    while i < n
        invariant
            n == imgs@.len(),
            w == imgs@[0].width,
            ch == imgs@[0].channels,
            forall|k: int| 0 <= k < n ==> (#[trigger] imgs@[k]).wf(),
            forall|k: int| 0 <= k < n ==> (#[trigger] imgs@[k]).width == w,
            forall|k: int| 0 <= k < n ==> (#[trigger] imgs@[k]).channels == ch,
            i <= n,
            seqs_of(out_rows@) == vcat_rows(imgs@.subrange(0, i as int)),
        decreases n - i,
    {
        let src = &imgs[i];
        let hh = src.rows.len();
        let ghost block_before = vcat_rows(imgs@.subrange(0, i as int));
        let mut r: usize = 0;
        proof {
            assert(src.row_seqs().subrange(0, 0) =~= Seq::<Seq<u8>>::empty());
            assert(seqs_of(out_rows@) =~= block_before + src.row_seqs().subrange(0, 0));
        }
        while r < hh
            invariant
                n == imgs@.len(),
                i < n,
                src.wf(),
                src == imgs@[i as int],
                hh == src.rows@.len(),
                r <= hh,
                seqs_of(out_rows@) == block_before + src.row_seqs().subrange(0, r as int),
            decreases hh - r,
        {
            let src_row: &Vec<u8> = &src.rows[r];
            let m: usize = src_row.len();
            let mut row: Vec<u8> = Vec::new();
            let mut j: usize = 0;
            while j < m
                invariant
                    j <= m,
                    m == src_row@.len(),
                    row@ == src_row@.subrange(0, j as int),
                decreases m - j,
            {
                row.push(src_row[j]);
                proof {
                    assert(src_row@.subrange(0, (j + 1) as int) =~= src_row@.subrange(
                        0,
                        j as int,
                    ).push(src_row@[j as int]));
                }
                j = j + 1;
            }
            proof {
                assert(src_row@.subrange(0, m as int) =~= src_row@);
            }
            let ghost prev = out_rows@;
            out_rows.push(row);
            proof {
                let target_seq = block_before + src.row_seqs().subrange(0, (r + 1) as int);
                assert(seqs_of(prev).len() == prev.len());
                assert(prev.len() == block_before.len() + r);
                assert forall|k: int| 0 <= k < prev.len() + 1 implies seqs_of(out_rows@)[k]
                    == target_seq[k] by {
                    if k < prev.len() {
                        assert(out_rows@[k] == prev[k]);
                        assert(seqs_of(out_rows@)[k] == prev[k]@);
                        assert(seqs_of(prev)[k] == prev[k]@);
                        assert((block_before + src.row_seqs().subrange(0, r as int))[k]
                            == seqs_of(prev)[k]);
                        if k >= block_before.len() {
                            assert(src.row_seqs().subrange(0, (r + 1) as int)[k
                                - block_before.len()] == src.row_seqs()[k - block_before.len()]);
                            assert(src.row_seqs().subrange(0, r as int)[k - block_before.len()]
                                == src.row_seqs()[k - block_before.len()]);
                        }
                    } else {
                        assert(out_rows@[k] == row);
                        assert(seqs_of(out_rows@)[k] == row@);
                        assert(target_seq[k] == src.row_seqs().subrange(0, (r + 1) as int)[
                            r as int]);
                        assert(src.row_seqs().subrange(0, (r + 1) as int)[r as int]
                            == src.row_seqs()[r as int]);
                        assert(src.row_seqs()[r as int] == src.rows@[r as int]@);
                    }
                }
                assert(seqs_of(out_rows@) =~= target_seq);
            }
            r = r + 1;
        }
        proof {
            assert(src.row_seqs().subrange(0, hh as int) =~= src.row_seqs());
            lemma_vcat_prefix_step(imgs@, i as int);
        }
        i = i + 1;
    }
    proof {
        assert(imgs@.subrange(0, n as int) =~= imgs@);
        lemma_vcat_len(imgs@);
        lemma_vcat_row_lens(imgs@, w as int, ch as int);
        assert(seqs_of(out_rows@).len() == out_rows@.len());
        assert forall|k: int| 0 <= k < out_rows@.len() implies (#[trigger] out_rows@[k])@.len()
            == w * ch by {
            assert(seqs_of(out_rows@)[k] == out_rows@[k]@);
            assert(vcat_rows(imgs@)[k].len() == w * ch);
        }
    }
    let out_h = out_rows.len();
    let out = Image { width: w, height: out_h, channels: ch, rows: out_rows };
    proof {
        assert(out.row_seqs() =~= seqs_of(out.rows@));
    }
    out
}

/// The rows of a vector of byte rows, as mathematical sequences.
pub open spec fn seqs_of(rows: Seq<Vec<u8>>) -> Seq<Seq<u8>> {
    Seq::new(rows.len(), |i: int| rows[i]@)
}

/// Nearest source position for destination position `pos`, when an extent
/// of `src_extent` pixels is rescaled to `dst_extent` pixels.
pub open spec fn src_index(src_extent: int, dst_extent: int, pos: int) -> int {
    (pos * src_extent) / dst_extent
}

/// Pixel row `r` of `img` rescaled, aspect ratio preserved, to height
/// `target`: each destination pixel takes the bytes of its nearest source
/// pixel.
pub open spec fn spec_resized_row(img: Image, target: int, r: int) -> Seq<u8> {
    let sw = spec_scaled_width(img.width as int, img.height as int, target);
    Seq::new(
        (sw * img.channels) as nat,
        |j: int|
            img.row(src_index(img.height as int, target, r))[src_index(
                img.width as int,
                sw,
                j / img.channels as int,
            ) * img.channels + (j % img.channels as int)],
    )
}

/// Rescaling a row to the image's own height reproduces the row: the unit
/// scale is a no-op on the pixels as well as the dimensions.
pub proof fn lemma_resize_identity(img: Image, r: int)
    requires
        img.wf(),
        img.height >= 1,
        img.width >= 1,
        0 <= r < img.height,
    ensures
        spec_resized_row(img, img.height as int, r) == img.row(r),
{
    let h = img.height as int;
    let w = img.width as int;
    let ch = img.channels as int;
    crate::layout::lemma_unit_scale(w, h);
    let sw = spec_scaled_width(w, h, h);
    lemma_div_by_multiple(r, h);
    assert(src_index(h, h, r) == r);
    let res = spec_resized_row(img, h, r);
    assert(img.row(r).len() == w * ch);
    lemma_mul_nonnegative(w, ch);
    assert forall|j: int| 0 <= j < w * ch implies res[j] == img.row(r)[j] by {
        let cc = j / ch;
        let kk = j % ch;
        lemma_mod_bound(j, ch);
        vstd::arithmetic::div_mod::lemma_fundamental_div_mod(j, ch);
        assert(j < ch * w) by (nonlinear_arith)
            requires
                j < w * ch,
        ;
        lemma_multiply_divide_lt(j, ch, w);
        lemma_div_by_multiple(cc, w);
        assert(src_index(w, sw, cc) == cc);
        assert(res[j] == img.row(r)[cc * ch + kk]);
        assert(cc * ch + kk == j) by (nonlinear_arith)
            requires
                j == ch * cc + kk,
        ;
    }
    assert(res =~= img.row(r));
}

impl Image {
    /// Rescales this image, aspect ratio preserved, to height `target`,
    /// mapping each destination pixel to its nearest source pixel.
    pub fn resize_to_height(&self, target: usize) -> (out: Image)
        requires
            self.wf(),
            self.height >= 1,
            self.width >= 1,
            target >= 1,
            spec_scaled_width(self.width as int, self.height as int, target as int)
                * self.channels <= usize::MAX,
        ensures
            out.wf(),
            out.channels == self.channels,
            out.height == target,
            out.width == spec_scaled_width(
                self.width as int,
                self.height as int,
                target as int,
            ),
            forall|r: int| 0 <= r < target ==> out.row(r) == spec_resized_row(
                *self,
                target as int,
                r,
            ),
            target == self.height ==> forall|r: int| 0 <= r < target ==> out.row(r)
                == self.row(r),
    {
        let ch = self.channels;
        let h = self.height;
        let w = self.width;
        let ghost sw = spec_scaled_width(w as int, h as int, target as int);
        proof {
            lemma_mul_nonnegative((w * target) as int, 1);
            lemma_mul_nonnegative(w as int, target as int);
            lemma_div_pos_is_pos((w as int) * (target as int), h as int);
            lemma_mul_inequality(1, ch as int, sw);
            assert(1 * sw == sw) by (nonlinear_arith);
            assert(ch as int * sw == sw * ch) by (nonlinear_arith);
        }
        let new_w = scaled_width(w, h, target);
        let mut out_rows: Vec<Vec<u8>> = Vec::new();
        let mut r: usize = 0;
        while r < target
            invariant
                self.wf(),
                ch == self.channels,
                h == self.height,
                w == self.width,
                h >= 1,
                w >= 1,
                target >= 1,
                sw == spec_scaled_width(w as int, h as int, target as int),
                new_w == sw,
                sw * ch <= usize::MAX,
                r <= target,
                out_rows@.len() == r,
                forall|k: int|
                    0 <= k < r ==> (#[trigger] out_rows@[k])@ == spec_resized_row(
                        *self,
                        target as int,
                        k,
                    ),
            decreases target - r,
        {
            let sr_wide: u128 = crate::layout::wide_mul(r, h) / (target as u128);
            proof {
                lemma_mul_strict_inequality(r as int, target as int, h as int);
                assert((r as int) * (h as int) < (target as int) * (h as int));
                lemma_multiply_divide_lt((r as int) * (h as int), target as int, h as int);
                lemma_mul_nonnegative(r as int, h as int);
                lemma_div_pos_is_pos((r as int) * (h as int), target as int);
            }
            let sr: usize = sr_wide as usize;
            let src_row: &Vec<u8> = &self.rows[sr];
            let n0: usize = src_row.len();
            proof {
                assert(n0 == w * ch);
            }
            let mut row: Vec<u8> = Vec::new();
            let mut c: usize = 0;
            while c < new_w
                invariant
                    self.wf(),
                    ch == self.channels,
                    h == self.height,
                    w == self.width,
                    w >= 1,
                    new_w == sw,
                    sw == spec_scaled_width(w as int, h as int, target as int),
                    sw * ch <= usize::MAX,
                    0 <= sr < h,
                    src_row == self.rows@[sr as int],
                    n0 == src_row@.len(),
                    n0 == w * ch,
                    c <= new_w,
                    row@.len() == c * ch,
                    forall|cc: int|
                        0 <= cc < c ==> row@.subrange(cc * ch, cc * ch + ch) == self.pixel(
                            sr as int,
                            src_index(w as int, sw, cc),
                        ),
                decreases new_w - c,
            {
                let sc_wide: u128 = crate::layout::wide_mul(c, w) / (new_w as u128);
                proof {
                    lemma_mul_strict_inequality(c as int, new_w as int, w as int);
                    lemma_multiply_divide_lt((c as int) * (w as int), new_w as int, w as int);
                    lemma_mul_nonnegative(c as int, w as int);
                    lemma_div_pos_is_pos((c as int) * (w as int), new_w as int);
                }
                let sc: usize = sc_wide as usize;
                proof {
                    lemma_mul_inequality((sc + 1) as int, w as int, ch as int);
                    assert(((sc + 1) as int) * (ch as int) == (sc as int) * (ch as int)
                        + ch as int) by (nonlinear_arith);
                    lemma_mul_inequality((c + 1) as int, sw, ch as int);
                    assert(((c + 1) as int) * (ch as int) == (c as int) * (ch as int)
                        + ch as int) by (nonlinear_arith);
                }
                let base: usize = sc * ch;
                let ghost row_before = row@;
                let mut k: usize = 0;
                while k < ch
                    invariant
                        k <= ch,
                        base == sc * ch,
                        base + ch <= n0,
                        n0 == src_row@.len(),
                        row@ == row_before + src_row@.subrange(
                            base as int,
                            (base + k) as int,
                        ),
                    decreases ch - k,
                {
                    row.push(src_row[base + k]);
                    proof {
                        assert(row_before + src_row@.subrange(base as int, (base + k + 1) as int)
                            =~= (row_before + src_row@.subrange(base as int, (base + k) as int))
                            .push(src_row@[(base + k) as int]));
                    }
                    k = k + 1;
                }
                proof {
                    let ghost pix = self.pixel(sr as int, sc as int);
                    assert(pix == src_row@.subrange(base as int, (base + ch) as int));
                    assert(row@ == row_before + pix);
                    assert(row_before.len() == c * ch);
                    assert forall|cc: int| 0 <= cc < c + 1 implies row@.subrange(
                        cc * ch,
                        cc * ch + ch,
                    ) == self.pixel(sr as int, src_index(w as int, sw, cc)) by {
                        lemma_mul_nonnegative(cc, ch as int);
                        assert((cc + 1) * (ch as int) == cc * (ch as int) + ch as int)
                            by (nonlinear_arith);
                        assert((c as int + 1) * (ch as int) == (c as int) * (ch as int)
                            + ch as int) by (nonlinear_arith);
                        if cc < c {
                            lemma_mul_inequality((cc + 1) as int, c as int, ch as int);
                            assert(row@.subrange(cc * ch, cc * ch + ch) =~= row_before.subrange(
                                cc * ch,
                                cc * ch + ch,
                            ));
                        } else {
                            assert(row@.subrange(cc * ch, cc * ch + ch) =~= pix);
                            assert(sc == src_index(w as int, sw, c as int));
                        }
                    }
                }
                c = c + 1;
            }
            proof {
                let ghost res = spec_resized_row(*self, target as int, r as int);
                lemma_mul_nonnegative(sw, ch as int);
                assert(res.len() == sw * ch);
                assert(sr == src_index(h as int, target as int, r as int));
                assert forall|j: int| 0 <= j < sw * ch implies row@[j] == res[j] by {
                    let cc = j / (ch as int);
                    let kk = j % (ch as int);
                    lemma_mod_bound(j, ch as int);
                    vstd::arithmetic::div_mod::lemma_fundamental_div_mod(j, ch as int);
                    assert(j < (ch as int) * sw) by (nonlinear_arith)
                        requires
                            j < sw * ch,
                    ;
                    lemma_multiply_divide_lt(j, ch as int, sw);
                    lemma_mul_nonnegative(cc, ch as int);
                    lemma_mul_inequality((cc + 1) as int, sw, ch as int);
                    assert((cc + 1) * (ch as int) == cc * (ch as int) + ch as int)
                        by (nonlinear_arith);
                    assert(row@.subrange(cc * ch, cc * ch + ch) == self.pixel(
                        sr as int,
                        src_index(w as int, sw, cc),
                    ));
                    assert(cc * ch + kk == j) by (nonlinear_arith)
                        requires
                            j == (ch as int) * cc + kk,
                    ;
                    assert(row@[j] == row@.subrange(cc * ch, cc * ch + ch)[kk]);
                    let scc = src_index(w as int, sw, cc);
                    assert(sw > 0) by (nonlinear_arith)
                        requires
                            0 <= j < sw * ch,
                            ch >= 1,
                    ;
                    lemma_mul_strict_inequality(cc, sw, w as int);
                    lemma_multiply_divide_lt(cc * (w as int), sw, w as int);
                    lemma_mul_nonnegative(cc, w as int);
                    lemma_div_pos_is_pos(cc * (w as int), sw);
                    lemma_mul_nonnegative(scc, ch as int);
                    lemma_mul_inequality(scc + 1, w as int, ch as int);
                    assert((scc + 1) * (ch as int) == scc * (ch as int) + ch as int)
                        by (nonlinear_arith);
                    assert(self.pixel(sr as int, src_index(w as int, sw, cc))[kk] == self.row(
                        sr as int,
                    )[src_index(w as int, sw, cc) * ch + kk]);
                }
                assert(row@ =~= res);
            }
            out_rows.push(row);
            r = r + 1;
        }
        let out = Image { width: new_w, height: target, channels: ch, rows: out_rows };
        proof {
            lemma_mul_nonnegative(sw, ch as int);
            assert forall|k: int| 0 <= k < target implies (#[trigger] out.rows@[k])@.len() == (
            new_w as int) * (ch as int) by {
                assert(out.rows@[k]@ == spec_resized_row(*self, target as int, k));
            }
            if target == self.height {
                assert forall|k: int| 0 <= k < target implies (#[trigger] out.row(k)) == self.row(
                    k,
                ) by {
                    lemma_resize_identity(*self, k);
                }
            }
        }
        out
    }
}

} // verus!
