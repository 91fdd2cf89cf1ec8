//! Composition of the pipeline stages: cropping a source to its corner
//! matches, building rows of rescaled crops, and assembling padded rows
//! into the final collage.

use vstd::prelude::*;
use vstd::math::{max, min};
use vstd::arithmetic::mul::{lemma_mul_inequality, lemma_mul_nonnegative};
use vstd::arithmetic::div_mod::lemma_div_pos_is_pos;
use crate::geometry::{
    spec_max_bottom, spec_max_right, spec_min_x, spec_min_y, union_rect, Rect,
};
use crate::image::{
    hcat_row, hcat_width, hconcat, lemma_resize_identity, spec_resized_row, vcat_height,
    vcat_rows, vconcat, zero_seq, Image,
};
use crate::layout::spec_scaled_width;
use crate::TileError;

verus! {

/// Crops `source` to the bounding box of its four corner-marker matches.
///
/// Fails exactly when that box is empty or reaches outside the source.
pub fn crop_to_markers(
    source: &Image,
    tl: &Rect,
    tr: &Rect,
    bl: &Rect,
    br: &Rect,
) -> (res: Result<Image, TileError>)
    requires
        source.wf(),
        tl.fits(),
        tr.fits(),
        bl.fits(),
        br.fits(),
    ensures
        ({
            let x0 = spec_min_x(*tl, *tr, *bl, *br);
            let y0 = spec_min_y(*tl, *tr, *bl, *br);
            let x1 = spec_max_right(*tl, *tr, *bl, *br);
            let y1 = spec_max_bottom(*tl, *tr, *bl, *br);
            match res {
                Ok(out) => {
                    &&& x1 <= source.width
                    &&& y1 <= source.height
                    &&& x0 < x1
                    &&& y0 < y1
                    &&& out.wf()
                    &&& out.channels == source.channels
                    &&& out.width == x1 - x0
                    &&& out.height == y1 - y0
                    &&& forall|i: int|
                        0 <= i < y1 - y0 ==> out.row(i) == source.row(y0 + i).subrange(
                            x0 * source.channels,
                            x1 * source.channels,
                        )
                },
                Err(e) => {
                    &&& e == TileError::RegionOutOfBounds
                    &&& (x1 > source.width || y1 > source.height || x0 == x1 || y0 == y1)
                },
            }
        }),
{
    let region = union_rect(tl, tr, bl, br);
    if region.width >= 1 && region.height >= 1 && region.width <= source.width
        && region.x <= source.width - region.width && region.height <= source.height
        && region.y <= source.height - region.height {
        let out = source.crop(&region);
        proof {
            assert forall|i: int| 0 <= i < region.height implies out.row(i) == source.row(
                region.y + i,
            ).subrange(
                spec_min_x(*tl, *tr, *bl, *br) * source.channels,
                spec_max_right(*tl, *tr, *bl, *br) * source.channels,
            ) by {
                assert(crate::image::cropped_row(*source, region, i) == source.row(region.y
                    + i).subrange(
                    region.x * source.channels,
                    (region.x + region.width) * source.channels,
                ));
            }
        }
        Ok(out)
    } else {
        Err(TileError::RegionOutOfBounds)
    }
}

/// The target height of a row: the greatest height among its members.
pub open spec fn max_height(tiles: Seq<Image>) -> int
    decreases tiles.len(),
{
    if tiles.len() == 0 {
        0
    } else {
        max(max_height(tiles.drop_last()), tiles.last().height as int)
    }
}

/// The width of a finished row: the sum of its members' widths once each
/// is rescaled to the row height `target`.
pub open spec fn row_width(tiles: Seq<Image>, target: int) -> int
    decreases tiles.len(),
{
    if tiles.len() == 0 {
        0
    } else {
        row_width(tiles.drop_last(), target) + spec_scaled_width(
            tiles.last().width as int,
            tiles.last().height as int,
            target,
        )
    }
}

/// Pixel row `r` of a finished row: the members' rescaled rows side by
/// side, in arrival order.
pub open spec fn row_content(tiles: Seq<Image>, target: int, r: int) -> Seq<u8>
    decreases tiles.len(),
{
    if tiles.len() == 0 {
        Seq::empty()
    } else {
        row_content(tiles.drop_last(), target, r) + spec_resized_row(tiles.last(), target, r)
    }
}

proof fn lemma_row_prefix_step(tiles: Seq<Image>, start: int, k: int, target: int)
    requires
        0 <= start <= k < tiles.len(),
    ensures
        max_height(tiles.subrange(start, k + 1)) == max(
            max_height(tiles.subrange(start, k)),
            tiles[k].height as int,
        ),
        row_width(tiles.subrange(start, k + 1), target) == row_width(
            tiles.subrange(start, k),
            target,
        ) + spec_scaled_width(tiles[k].width as int, tiles[k].height as int, target),
        forall|r: int| row_content(tiles.subrange(start, k + 1), target, r) == row_content(
            tiles.subrange(start, k),
            target,
            r,
        ) + spec_resized_row(tiles[k], target, r),
{
    assert(tiles.subrange(start, k + 1).drop_last() =~= tiles.subrange(start, k));
    assert(tiles.subrange(start, k + 1).last() == tiles[k]);
}

/// Every member's height is at most the row height.
proof fn lemma_max_height_ge(tiles: Seq<Image>, i: int)
    requires
        0 <= i < tiles.len(),
    ensures
        tiles[i].height <= max_height(tiles),
    decreases tiles.len(),
{
    if i + 1 < tiles.len() {
        lemma_max_height_ge(tiles.drop_last(), i);
    }
}

proof fn lemma_row_width_nonneg(tiles: Seq<Image>, target: int)
    requires
        forall|i: int| 0 <= i < tiles.len() ==> (#[trigger] tiles[i]).height >= 1,
        target >= 0,
    ensures
        row_width(tiles, target) >= 0,
    decreases tiles.len(),
{
    if tiles.len() > 0 {
        let prefix = tiles.drop_last();
        assert(forall|i: int| 0 <= i < prefix.len() ==> prefix[i] == tiles[i]);
        lemma_row_width_nonneg(prefix, target);
        let last = tiles[tiles.len() - 1];
        lemma_mul_nonnegative(last.width as int, target);
        lemma_div_pos_is_pos((last.width as int) * target, last.height as int);
    }
}

/// Each member's rescaled width is at most the whole row's width.
proof fn lemma_row_width_elem_le(tiles: Seq<Image>, target: int, i: int)
    requires
        forall|k: int| 0 <= k < tiles.len() ==> (#[trigger] tiles[k]).height >= 1,
        target >= 0,
        0 <= i < tiles.len(),
    ensures
        spec_scaled_width(tiles[i].width as int, tiles[i].height as int, target) <= row_width(
            tiles,
            target,
        ),
    decreases tiles.len(),
{
    let prefix = tiles.drop_last();
    assert(forall|k: int| 0 <= k < prefix.len() ==> prefix[k] == tiles[k]);
    let last = tiles[tiles.len() - 1];
    lemma_mul_nonnegative(last.width as int, target);
    lemma_div_pos_is_pos((last.width as int) * target, last.height as int);
    if i + 1 < tiles.len() {
        lemma_row_width_elem_le(prefix, target, i);
    } else {
        lemma_row_width_nonneg(prefix, target);
    }
}

proof fn lemma_row_as_hcat(resized: Seq<Image>, tiles: Seq<Image>, target: int)
    requires
        resized.len() == tiles.len(),
        forall|i: int| 0 <= i < tiles.len() ==> (#[trigger] resized[i]).width
            == spec_scaled_width(tiles[i].width as int, tiles[i].height as int, target),
        forall|i: int, r: int|
            0 <= i < tiles.len() && 0 <= r < target ==> (#[trigger] resized[i].row(r))
                == spec_resized_row(tiles[i], target, r),
    ensures
        hcat_width(resized) == row_width(tiles, target),
        forall|r: int| 0 <= r < target ==> hcat_row(resized, r) == row_content(
            tiles,
            target,
            r,
        ),
    decreases tiles.len(),
{
    if tiles.len() > 0 {
        let rp = resized.drop_last();
        let tp = tiles.drop_last();
        assert(forall|i: int| 0 <= i < rp.len() ==> rp[i] == resized[i]);
        assert(forall|i: int| 0 <= i < tp.len() ==> tp[i] == tiles[i]);
        lemma_row_as_hcat(rp, tp, target);
        assert(resized.last() == resized[tiles.len() - 1]);
        assert(tiles.last() == tiles[tiles.len() - 1]);
        assert forall|r: int| 0 <= r < target implies hcat_row(resized, r) == row_content(
            tiles,
            target,
            r,
        ) by {
            assert(hcat_row(resized, r) == hcat_row(rp, r) + resized[tiles.len() - 1].row(r));
            assert(row_content(tiles, target, r) == row_content(tp, target, r)
                + spec_resized_row(tiles[tiles.len() - 1], target, r));
            assert(hcat_row(rp, r) == row_content(tp, target, r));
            assert(resized[tiles.len() - 1].row(r) == spec_resized_row(
                tiles[tiles.len() - 1],
                target,
                r,
            ));
        }
    }
}

/// Builds one row of the collage from the crops `tiles[start..end]`:
/// each is rescaled to the row's height (the greatest height among them)
/// and the results are concatenated left to right.
pub fn build_row(tiles: &Vec<Image>, start: usize, end: usize) -> (out: Image)
    requires
        start < end <= tiles@.len(),
        forall|i: int| start <= i < end ==> (#[trigger] tiles@[i]).wf(),
        forall|i: int| start <= i < end ==> (#[trigger] tiles@[i]).height >= 1,
        forall|i: int| start <= i < end ==> (#[trigger] tiles@[i]).width >= 1,
        forall|i: int|
            start <= i < end ==> (#[trigger] tiles@[i]).channels == tiles@[start as int].channels,
        row_width(
            tiles@.subrange(start as int, end as int),
            max_height(tiles@.subrange(start as int, end as int)),
        ) <= usize::MAX,
        row_width(
            tiles@.subrange(start as int, end as int),
            max_height(tiles@.subrange(start as int, end as int)),
        ) * tiles@[start as int].channels <= usize::MAX,
    ensures
        out.wf(),
        out.channels == tiles@[start as int].channels,
        out.height == max_height(tiles@.subrange(start as int, end as int)),
        out.width == row_width(
            tiles@.subrange(start as int, end as int),
            max_height(tiles@.subrange(start as int, end as int)),
        ),
        forall|r: int| 0 <= r < out.height ==> out.row(r) == row_content(
            tiles@.subrange(start as int, end as int),
            max_height(tiles@.subrange(start as int, end as int)),
            r,
        ),
{
    let ghost chunk = tiles@.subrange(start as int, end as int);
    let ch = tiles[start].channels;
    let mut hmax: usize = 0;
    let mut k: usize = start;
    proof {
        assert(tiles@.subrange(start as int, start as int) =~= Seq::<Image>::empty());
    }
    while k < end
        invariant
            start <= k <= end <= tiles@.len(),
            forall|i: int| start <= i < end ==> (#[trigger] tiles@[i]).height >= 1,
            hmax == max_height(tiles@.subrange(start as int, k as int)),
        decreases end - k,
    {
        proof {
            lemma_row_prefix_step(tiles@, start as int, k as int, 0);
        }
        let hk = tiles[k].height;
        if hk > hmax {
            hmax = hk;
        }
        k = k + 1;
    }
    let ghost target = max_height(chunk);
    proof {
        assert(hmax == target);
        lemma_max_height_ge(chunk, 0);
        assert(chunk[0] == tiles@[start as int]);
        assert(chunk[0].height >= 1);
    }
    let mut resized: Vec<Image> = Vec::new();
    let mut k2: usize = start;
    while k2 < end
        invariant
            start <= k2 <= end <= tiles@.len(),
            ch == tiles@[start as int].channels,
            chunk == tiles@.subrange(start as int, end as int),
            hmax == target,
            target == max_height(chunk),
            hmax >= 1,
            forall|i: int| start <= i < end ==> (#[trigger] tiles@[i]).wf(),
            forall|i: int| start <= i < end ==> (#[trigger] tiles@[i]).height >= 1,
            forall|i: int| start <= i < end ==> (#[trigger] tiles@[i]).width >= 1,
            forall|i: int| start <= i < end ==> (#[trigger] tiles@[i]).channels == ch,
            row_width(chunk, target) <= usize::MAX,
            row_width(chunk, target) * ch <= usize::MAX,
            resized@.len() == k2 - start,
            forall|m: int| 0 <= m < k2 - start ==> (#[trigger] resized@[m]).wf(),
            forall|m: int| 0 <= m < k2 - start ==> (#[trigger] resized@[m]).channels == ch,
            forall|m: int| 0 <= m < k2 - start ==> (#[trigger] resized@[m]).height == hmax,
            forall|m: int| 0 <= m < k2 - start ==> (#[trigger] resized@[m]).width
                == spec_scaled_width(
                tiles@[start + m].width as int,
                tiles@[start + m].height as int,
                target,
            ),
            forall|m: int, r: int| 0 <= m < k2 - start && 0 <= r < target ==> (
            #[trigger] resized@[m].row(r)) == spec_resized_row(tiles@[start + m], target, r),
        decreases end - k2,
    {
        proof {
            assert(chunk[k2 - start] == tiles@[k2 as int]);
            lemma_max_height_ge(chunk, k2 - start);
            lemma_row_width_elem_le(chunk, target, k2 - start);
            let sws = spec_scaled_width(
                tiles@[k2 as int].width as int,
                tiles@[k2 as int].height as int,
                target,
            );
            lemma_mul_nonnegative(tiles@[k2 as int].width as int, target);
            lemma_div_pos_is_pos(
                (tiles@[k2 as int].width as int) * target,
                tiles@[k2 as int].height as int,
            );
            lemma_mul_inequality(sws, row_width(chunk, target), ch as int);
            assert(forall|i: int| 0 <= i < chunk.len() ==> (#[trigger] chunk[i]).height >= 1);
        }
        let rimg = tiles[k2].resize_to_height(hmax);
        resized.push(rimg);
        k2 = k2 + 1;
    }
    proof {
        assert(forall|m: int| 0 <= m < chunk.len() ==> chunk[m] == tiles@[start + m]);
        lemma_row_as_hcat(resized@, chunk, target);
        assert(resized@[0].height == hmax);
        assert(resized@[0].channels == ch);
        assert(hcat_width(resized@) == row_width(chunk, target));
    }
    let out = hconcat(&resized);
    proof {
        assert forall|r: int| 0 <= r < out.height implies out.row(r) == row_content(
            chunk,
            target,
            r,
        ) by {
            assert(out.row(r) == hcat_row(resized@, r));
        }
    }
    out
}

/// The width of the finished collage: the greatest width among the rows.
pub open spec fn max_row_width(rows: Seq<Image>) -> int
    decreases rows.len(),
{
    if rows.len() == 0 {
        0
    } else {
        max(max_row_width(rows.drop_last()), rows.last().width as int)
    }
}

/// The pixel rows of one collage row once it is right-padded with blank
/// pixels to width `tw`.
pub open spec fn padded_seqs(img: Image, tw: int) -> Seq<Seq<u8>> {
    Seq::new(
        img.height as nat,
        |r: int| img.row(r) + zero_seq((tw - img.width) * img.channels),
    )
}

/// The pixel rows of the finished collage: every row image padded to
/// width `tw`, stacked top to bottom.
pub open spec fn stacked(rows: Seq<Image>, tw: int) -> Seq<Seq<u8>>
    decreases rows.len(),
{
    if rows.len() == 0 {
        Seq::empty()
    } else {
        stacked(rows.drop_last(), tw) + padded_seqs(rows.last(), tw)
    }
}

proof fn lemma_grid_prefix_step(rows: Seq<Image>, k: int, tw: int)
    requires
        0 <= k < rows.len(),
    ensures
        max_row_width(rows.subrange(0, k + 1)) == max(
            max_row_width(rows.subrange(0, k)),
            rows[k].width as int,
        ),
        vcat_height(rows.subrange(0, k + 1)) == vcat_height(rows.subrange(0, k))
            + rows[k].height,
        stacked(rows.subrange(0, k + 1), tw) == stacked(rows.subrange(0, k), tw) + padded_seqs(
            rows[k],
            tw,
        ),
{
    assert(rows.subrange(0, k + 1).drop_last() =~= rows.subrange(0, k));
    assert(rows.subrange(0, k + 1).last() == rows[k]);
}

/// No row is wider than the collage, and some row is exactly as wide.
proof fn lemma_max_row_width_props(rows: Seq<Image>)
    requires
        rows.len() >= 1,
    ensures
        forall|i: int| 0 <= i < rows.len() ==> (#[trigger] rows[i]).width <= max_row_width(rows),
        exists|i: int| 0 <= i < rows.len() && (#[trigger] rows[i]).width == max_row_width(rows),
    decreases rows.len(),
{
    let prefix = rows.drop_last();
    assert(forall|i: int| 0 <= i < prefix.len() ==> prefix[i] == rows[i]);
    if rows.len() == 1 {
        assert(rows[0].width == max_row_width(rows));
    } else {
        lemma_max_row_width_props(prefix);
        if max_row_width(prefix) >= rows.last().width as int {
            let i = choose|i: int|
                0 <= i < prefix.len() && (#[trigger] prefix[i]).width == max_row_width(prefix);
            assert(rows[i].width == max_row_width(rows));
        } else {
            assert(rows[rows.len() - 1].width == max_row_width(rows));
        }
    }
}

proof fn lemma_stacked_bridge(padded: Seq<Image>, rows: Seq<Image>, tw: int)
    requires
        padded.len() == rows.len(),
        forall|i: int| 0 <= i < rows.len() ==> (#[trigger] padded[i]).height == rows[i].height,
        forall|i: int| 0 <= i < rows.len() ==> (#[trigger] padded[i]).row_seqs() == padded_seqs(
            rows[i],
            tw,
        ),
    ensures
        vcat_rows(padded) == stacked(rows, tw),
        vcat_height(padded) == vcat_height(rows),
    decreases rows.len(),
{
    if rows.len() > 0 {
        let pp = padded.drop_last();
        let rp = rows.drop_last();
        assert(forall|i: int| 0 <= i < pp.len() ==> pp[i] == padded[i]);
        assert(forall|i: int| 0 <= i < rp.len() ==> rp[i] == rows[i]);
        lemma_stacked_bridge(pp, rp, tw);
        assert(padded[rows.len() - 1].row_seqs() == padded_seqs(rows[rows.len() - 1], tw));
    }
}

/// Padding a collage whose rows already all have the collage's width is
/// a no-op: the stacked result holds exactly the rows' own pixels.
pub proof fn lemma_grid_padding_noop(rows: Seq<Image>, tw: int)
    requires
        forall|i: int| 0 <= i < rows.len() ==> (#[trigger] rows[i]).wf(),
        forall|i: int| 0 <= i < rows.len() ==> (#[trigger] rows[i]).width == tw,
    ensures
        stacked(rows, tw) == vcat_rows(rows),
    decreases rows.len(),
{
    if rows.len() > 0 {
        let prefix = rows.drop_last();
        assert(forall|i: int| 0 <= i < prefix.len() ==> prefix[i] == rows[i]);
        lemma_grid_padding_noop(prefix, tw);
        let last = rows[rows.len() - 1];
        assert(last.wf());
        assert(zero_seq((tw - last.width) * last.channels).len() == 0);
        assert forall|r: int| 0 <= r < last.height implies padded_seqs(last, tw)[r]
            == last.row_seqs()[r] by {
            assert(padded_seqs(last, tw)[r] =~= last.row(r));
        }
        assert(padded_seqs(last, tw) =~= last.row_seqs());
    }
}

/// Assembles the finished collage: every row narrower than the widest is
/// right-padded with blank pixels, and the rows are stacked top to
/// bottom in order.
pub fn assemble_grid(rows: &Vec<Image>) -> (out: Image)
    requires
        rows@.len() >= 1,
        forall|i: int| 0 <= i < rows@.len() ==> (#[trigger] rows@[i]).wf(),
        forall|i: int| 0 <= i < rows@.len() ==> (#[trigger] rows@[i]).height >= 1,
        forall|i: int|
            0 <= i < rows@.len() ==> (#[trigger] rows@[i]).channels == rows@[0].channels,
        max_row_width(rows@) * rows@[0].channels <= usize::MAX,
    ensures
        out.wf(),
        out.channels == rows@[0].channels,
        out.width == max_row_width(rows@),
        out.height == vcat_height(rows@),
        out.row_seqs() == stacked(rows@, max_row_width(rows@)),
{
    let ch = rows[0].channels;
    let n = rows.len();
    let mut maxw: usize = 0;
    let mut k: usize = 0;
    proof {
        assert(rows@.subrange(0, 0) =~= Seq::<Image>::empty());
    }
    while k < n
        invariant
            n == rows@.len(),
            k <= n,
            maxw == max_row_width(rows@.subrange(0, k as int)),
        decreases n - k,
    {
        proof {
            lemma_grid_prefix_step(rows@, k as int, 0);
        }
        let wk = rows[k].width;
        if wk > maxw {
            maxw = wk;
        }
        k = k + 1;
    }
    proof {
        assert(rows@.subrange(0, n as int) =~= rows@);
        lemma_max_row_width_props(rows@);
    }
    let mut padded: Vec<Image> = Vec::new();
    let mut k2: usize = 0;
    while k2 < n
        invariant
            n == rows@.len(),
            ch == rows@[0].channels,
            maxw == max_row_width(rows@),
            max_row_width(rows@) * ch <= usize::MAX,
            forall|i: int| 0 <= i < n ==> (#[trigger] rows@[i]).wf(),
            forall|i: int| 0 <= i < n ==> (#[trigger] rows@[i]).height >= 1,
            forall|i: int| 0 <= i < n ==> (#[trigger] rows@[i]).channels == ch,
            forall|i: int| 0 <= i < n ==> (#[trigger] rows@[i]).width <= maxw,
            k2 <= n,
            padded@.len() == k2,
            forall|i: int| 0 <= i < k2 ==> (#[trigger] padded@[i]).wf(),
            forall|i: int| 0 <= i < k2 ==> (#[trigger] padded@[i]).width == maxw,
            forall|i: int| 0 <= i < k2 ==> (#[trigger] padded@[i]).height == rows@[i].height,
            forall|i: int| 0 <= i < k2 ==> (#[trigger] padded@[i]).channels == ch,
            forall|i: int| 0 <= i < k2 ==> (#[trigger] padded@[i]).row_seqs() == padded_seqs(
                rows@[i],
                maxw as int,
            ),
        decreases n - k2,
    {
        let pimg = rows[k2].pad_to_width(maxw);
        proof {
            assert forall|r: int| 0 <= r < pimg.height implies pimg.row_seqs()[r] == padded_seqs(
                rows@[k2 as int],
                maxw as int,
            )[r] by {
                assert(pimg.row(r) == rows@[k2 as int].row(r) + zero_seq(
                    (maxw - rows@[k2 as int].width) * ch,
                ));
            }
            assert(pimg.row_seqs() =~= padded_seqs(rows@[k2 as int], maxw as int));
        }
        padded.push(pimg);
        k2 = k2 + 1;
    }
    proof {
        lemma_stacked_bridge(padded@, rows@, maxw as int);
        assert(padded@[0].height == rows@[0].height);
        assert(padded@[0].channels == ch);
        assert(padded@[0].width == maxw);
    }
    let out = vconcat(&padded);
    out
}

/// The `j`th batch of crops destined for one row: `cols` images, or
/// fewer in the final batch.
pub open spec fn spec_chunk(tiles: Seq<Image>, cols: int, j: int) -> Seq<Image> {
    tiles.subrange(j * cols, min((j + 1) * cols, tiles.len() as int))
}

/// How many rows a collage of `n` crops gets at `cols` columns.
pub open spec fn spec_n_chunks(n: int, cols: int) -> int {
    (n + cols - 1) / cols
}

/// The collage width after the first `j` rows: the greatest row width.
pub open spec fn grid_width_upto(tiles: Seq<Image>, cols: int, j: int) -> int
    decreases j,
{
    if j <= 0 {
        0
    } else {
        max(
            grid_width_upto(tiles, cols, j - 1),
            row_width(
                spec_chunk(tiles, cols, j - 1),
                max_height(spec_chunk(tiles, cols, j - 1)),
            ),
        )
    }
}

/// The collage height after the first `j` rows: the sum of row heights.
pub open spec fn grid_height_upto(tiles: Seq<Image>, cols: int, j: int) -> int
    decreases j,
{
    if j <= 0 {
        0
    } else {
        grid_height_upto(tiles, cols, j - 1) + max_height(spec_chunk(tiles, cols, j - 1))
    }
}

/// The pixel rows contributed by one batch of crops: the finished row,
/// right-padded with blank pixels to the collage width `tw`.
pub open spec fn chunk_block(chunk: Seq<Image>, tw: int, ch: int) -> Seq<Seq<u8>> {
    Seq::new(
        max_height(chunk) as nat,
        |r: int|
            row_content(chunk, max_height(chunk), r) + zero_seq(
                (tw - row_width(chunk, max_height(chunk))) * ch,
            ),
    )
}

/// The pixel rows of the collage built from the first `j` batches.
pub open spec fn grid_rows_upto(tiles: Seq<Image>, cols: int, j: int, tw: int, ch: int) -> Seq<
    Seq<u8>,
>
    decreases j,
{
    if j <= 0 {
        Seq::empty()
    } else {
        grid_rows_upto(tiles, cols, j - 1, tw, ch) + chunk_block(
            spec_chunk(tiles, cols, j - 1),
            tw,
            ch,
        )
    }
}

/// Every crop handed to the tiler is well-formed.
pub open spec fn all_wf(tiles: Seq<Image>) -> bool {
    forall|i: int| 0 <= i < tiles.len() ==> (#[trigger] tiles[i]).wf()
}

/// Every crop has at least one pixel in each direction.
pub open spec fn all_nonempty(tiles: Seq<Image>) -> bool {
    forall|i: int|
        0 <= i < tiles.len() ==> (#[trigger] tiles[i]).height >= 1 && tiles[i].width >= 1
}

/// Every crop agrees with the first on the channel count.
pub open spec fn same_channels(tiles: Seq<Image>) -> bool {
    forall|i: int| 0 <= i < tiles.len() ==> (#[trigger] tiles[i]).channels == tiles[0].channels
}

/// Every intermediate dimension of the collage fits in a machine word.
pub open spec fn layout_fits(tiles: Seq<Image>, cols: int) -> bool {
    let m = spec_n_chunks(tiles.len() as int, cols);
    &&& forall|j: int|
        0 <= j < m ==> row_width(
            #[trigger] spec_chunk(tiles, cols, j),
            max_height(spec_chunk(tiles, cols, j)),
        ) <= usize::MAX
    &&& forall|j: int|
        0 <= j < m ==> row_width(
            #[trigger] spec_chunk(tiles, cols, j),
            max_height(spec_chunk(tiles, cols, j)),
        ) * tiles[0].channels <= usize::MAX
    &&& grid_height_upto(tiles, cols, m) <= usize::MAX
}

proof fn lemma_max_height_nonneg(tiles: Seq<Image>)
    ensures
        max_height(tiles) >= 0,
    decreases tiles.len(),
{
    if tiles.len() > 0 {
        lemma_max_height_nonneg(tiles.drop_last());
    }
}

proof fn lemma_row_width_sub_prefix_le(tiles: Seq<Image>, start: int, k: int, end: int, target: int)
    requires
        0 <= start <= k <= end <= tiles.len(),
        forall|i: int| start <= i < end ==> (#[trigger] tiles[i]).height >= 1,
        target >= 0,
    ensures
        row_width(tiles.subrange(start, k), target) <= row_width(
            tiles.subrange(start, end),
            target,
        ),
    decreases end - k,
{
    if k == end {
    } else {
        lemma_row_width_sub_prefix_le(tiles, start, k + 1, end, target);
        lemma_row_prefix_step(tiles, start, k, target);
        lemma_mul_nonnegative(tiles[k].width as int, target);
        lemma_div_pos_is_pos((tiles[k].width as int) * target, tiles[k].height as int);
    }
}

proof fn lemma_grid_height_mono(tiles: Seq<Image>, cols: int, j1: int, j2: int)
    requires
        0 <= j1 <= j2,
    ensures
        grid_height_upto(tiles, cols, j1) <= grid_height_upto(tiles, cols, j2),
    decreases j2 - j1,
{
    if j1 < j2 {
        lemma_grid_height_mono(tiles, cols, j1, j2 - 1);
        lemma_max_height_nonneg(spec_chunk(tiles, cols, j2 - 1));
    }
}

proof fn lemma_grid_agg(rowimgs: Seq<Image>, tiles: Seq<Image>, cols: int, tw: int, ch: int)
    requires
        forall|jj: int| 0 <= jj < rowimgs.len() ==> (#[trigger] rowimgs[jj]).wf(),
        forall|jj: int| 0 <= jj < rowimgs.len() ==> (#[trigger] rowimgs[jj]).channels == ch,
        forall|jj: int| 0 <= jj < rowimgs.len() ==> (#[trigger] rowimgs[jj]).height
            == max_height(spec_chunk(tiles, cols, jj)),
        forall|jj: int| 0 <= jj < rowimgs.len() ==> (#[trigger] rowimgs[jj]).width == row_width(
            spec_chunk(tiles, cols, jj),
            max_height(spec_chunk(tiles, cols, jj)),
        ),
        forall|jj: int, r: int|
            0 <= jj < rowimgs.len() && 0 <= r < rowimgs[jj].height ==> (#[trigger] rowimgs[
                jj].row(r)) == row_content(
                spec_chunk(tiles, cols, jj),
                max_height(spec_chunk(tiles, cols, jj)),
                r,
            ),
    ensures
        max_row_width(rowimgs) == grid_width_upto(tiles, cols, rowimgs.len() as int),
        vcat_height(rowimgs) == grid_height_upto(tiles, cols, rowimgs.len() as int),
        stacked(rowimgs, tw) == grid_rows_upto(tiles, cols, rowimgs.len() as int, tw, ch),
    decreases rowimgs.len(),
{
    if rowimgs.len() > 0 {
        let prefix = rowimgs.drop_last();
        assert(forall|i: int| 0 <= i < prefix.len() ==> prefix[i] == rowimgs[i]);
        lemma_grid_agg(prefix, tiles, cols, tw, ch);
        let jl = rowimgs.len() - 1;
        let last = rowimgs[jl];
        let chunk = spec_chunk(tiles, cols, jl);
        assert forall|r: int| 0 <= r < max_height(chunk) implies padded_seqs(last, tw)[r]
            == chunk_block(chunk, tw, ch)[r] by {
            assert(last.row(r) == row_content(chunk, max_height(chunk), r));
        }
        assert(padded_seqs(last, tw) =~= chunk_block(chunk, tw, ch));
    }
}

/// A collage of a single image collapses to that image: one row, one
/// grid, a unit rescale, and no padding.
pub proof fn lemma_single_tile_identity(tiles: Seq<Image>, cols: int)
    requires
        tiles.len() == 1,
        tiles[0].wf(),
        tiles[0].height >= 1,
        tiles[0].width >= 1,
        cols >= 1,
    ensures
        spec_n_chunks(1, cols) == 1,
        grid_width_upto(tiles, cols, 1) == tiles[0].width,
        grid_height_upto(tiles, cols, 1) == tiles[0].height,
        grid_rows_upto(tiles, cols, 1, tiles[0].width as int, tiles[0].channels as int)
            == tiles[0].row_seqs(),
{
    let img = tiles[0];
    let w = img.width as int;
    let h = img.height as int;
    let ch = img.channels as int;
    vstd::arithmetic::div_mod::lemma_div_multiples_vanish(1, cols);
    assert(cols * 1 == cols) by (nonlinear_arith);
    assert(spec_n_chunks(1, cols) == 1);
    let chunk = spec_chunk(tiles, cols, 0);
    assert(1 * cols == cols) by (nonlinear_arith);
    assert(chunk =~= tiles);
    let pre = tiles.drop_last();
    assert(pre.len() == 0);
    assert(max_height(pre) == 0);
    assert(row_width(pre, h) == 0);
    assert(tiles.last() == img);
    assert(max_height(tiles) == h);
    crate::layout::lemma_unit_scale(w, h);
    assert(row_width(tiles, h) == w);
    assert(grid_width_upto(tiles, cols, 0) == 0);
    assert(grid_height_upto(tiles, cols, 0) == 0);
    assert(grid_rows_upto(tiles, cols, 0, w, ch) == Seq::<Seq<u8>>::empty());
    assert(grid_width_upto(tiles, cols, 1) == w);
    assert(grid_height_upto(tiles, cols, 1) == h);
    assert forall|r: int| 0 <= r < h implies chunk_block(tiles, w, ch)[r]
        == img.row_seqs()[r] by {
        lemma_resize_identity(img, r);
        assert(row_content(pre, h, r) == Seq::<u8>::empty());
        assert(row_content(tiles, h, r) =~= img.row(r));
        assert((w - w) * ch == 0) by (nonlinear_arith);
        assert(chunk_block(tiles, w, ch)[r] =~= img.row(r));
    }
    assert(chunk_block(tiles, w, ch) =~= img.row_seqs());
    assert(grid_rows_upto(tiles, cols, 1, w, ch) =~= chunk_block(tiles, w, ch));
}

/// Tiles the cropped images into the final collage.
///
/// The column count comes from the fixed breakpoint table over the input
/// count.  Crops fill rows in arrival order; each row member is rescaled
/// to its row's height; rows narrower than the widest are right-padded
/// with blank pixels; and the rows are stacked top to bottom.  Succeeds
/// exactly when there is at least one crop, every crop is well-formed and
/// non-empty, all crops share one channel count, and every intermediate
/// dimension fits in a machine word.
pub fn tile_images(tiles: &Vec<Image>) -> (res: Result<Image, TileError>)
    ensures
        ({
            let n = tiles@.len() as int;
            let cols = crate::layout::spec_column_count(n);
            let m = spec_n_chunks(n, cols);
            match res {
                Ok(out) => {
                    &&& n >= 1
                    &&& all_wf(tiles@)
                    &&& all_nonempty(tiles@)
                    &&& same_channels(tiles@)
                    &&& layout_fits(tiles@, cols)
                    &&& out.wf()
                    &&& out.channels == tiles@[0].channels
                    &&& out.width == grid_width_upto(tiles@, cols, m)
                    &&& out.height == grid_height_upto(tiles@, cols, m)
                    &&& out.row_seqs() == grid_rows_upto(
                        tiles@,
                        cols,
                        m,
                        out.width as int,
                        out.channels as int,
                    )
                },
                Err(e) => {
                    ||| (e == TileError::EmptyInput && n == 0)
                    ||| (e == TileError::MalformedImage && n >= 1 && !all_wf(tiles@))
                    ||| (e == TileError::EmptyImage && n >= 1 && all_wf(tiles@)
                        && !all_nonempty(tiles@))
                    ||| (e == TileError::ChannelMismatch && n >= 1 && all_wf(tiles@)
                        && all_nonempty(tiles@) && !same_channels(tiles@))
                    ||| (e == TileError::TooLarge && n >= 1 && all_wf(tiles@) && all_nonempty(
                        tiles@,
                    ) && same_channels(tiles@) && !layout_fits(tiles@, cols))
                },
            }
        }),
{
    let n = tiles.len();
    if n == 0 {
        return Err(TileError::EmptyInput);
    }
    let mut i: usize = 0;
    while i < n
        invariant
            n == tiles@.len(),
            i <= n,
            forall|k: int| 0 <= k < i ==> (#[trigger] tiles@[k]).wf(),
        decreases n - i,
    {
        if !tiles[i].is_wf() {
            proof {
                assert(!tiles@[i as int].wf());
                assert(!all_wf(tiles@));
            }
            return Err(TileError::MalformedImage);
        }
        i = i + 1;
    }
    proof {
        assert(all_wf(tiles@));
    }
    let mut i2: usize = 0;
    while i2 < n
        invariant
            n == tiles@.len(),
            n >= 1,
            all_wf(tiles@),
            i2 <= n,
            forall|k: int|
                0 <= k < i2 ==> (#[trigger] tiles@[k]).height >= 1 && tiles@[k].width >= 1,
        decreases n - i2,
    {
        if tiles[i2].height < 1 || tiles[i2].width < 1 {
            proof {
                assert(!(tiles@[i2 as int].height >= 1 && tiles@[i2 as int].width >= 1));
                assert(!all_nonempty(tiles@));
            }
            return Err(TileError::EmptyImage);
        }
        i2 = i2 + 1;
    }
    proof {
        assert(all_nonempty(tiles@));
    }
    let ch = tiles[0].channels;
    let mut i3: usize = 0;
    while i3 < n
        invariant
            n == tiles@.len(),
            n >= 1,
            all_wf(tiles@),
            all_nonempty(tiles@),
            ch == tiles@[0].channels,
            i3 <= n,
            forall|k: int| 0 <= k < i3 ==> (#[trigger] tiles@[k]).channels == ch,
        decreases n - i3,
    {
        if tiles[i3].channels != ch {
            proof {
                assert(tiles@[i3 as int].channels != tiles@[0].channels);
                assert(!same_channels(tiles@));
            }
            return Err(TileError::ChannelMismatch);
        }
        i3 = i3 + 1;
    }
    proof {
        assert(same_channels(tiles@));
    }
    let cols = crate::layout::num_columns(n);
    let mut row_imgs: Vec<Image> = Vec::new();
    let mut total_h: usize = 0;
    let mut start: usize = 0;
    let ghost mut j: int = 0;
    while start < n
        invariant
            n == tiles@.len(),
            n >= 1,
            1 <= cols <= 6,
            cols == crate::layout::spec_column_count(n as int),
            ch == tiles@[0].channels,
            all_wf(tiles@),
            all_nonempty(tiles@),
            same_channels(tiles@),
            0 <= j,
            start == min(j * cols, n as int),
            j >= 1 ==> (j - 1) * cols < n,
            row_imgs@.len() == j,
            total_h == grid_height_upto(tiles@, cols as int, j),
            forall|jj: int| 0 <= jj < j ==> (#[trigger] row_imgs@[jj]).wf(),
            forall|jj: int| 0 <= jj < j ==> (#[trigger] row_imgs@[jj]).channels == ch,
            forall|jj: int| 0 <= jj < j ==> (#[trigger] row_imgs@[jj]).height == max_height(
                spec_chunk(tiles@, cols as int, jj),
            ),
            forall|jj: int| 0 <= jj < j ==> (#[trigger] row_imgs@[jj]).height >= 1,
            forall|jj: int| 0 <= jj < j ==> (#[trigger] row_imgs@[jj]).width == row_width(
                spec_chunk(tiles@, cols as int, jj),
                max_height(spec_chunk(tiles@, cols as int, jj)),
            ),
            forall|jj: int, r: int|
                0 <= jj < j && 0 <= r < row_imgs@[jj].height ==> (#[trigger] row_imgs@[jj].row(
                    r,
                )) == row_content(
                    spec_chunk(tiles@, cols as int, jj),
                    max_height(spec_chunk(tiles@, cols as int, jj)),
                    r,
                ),
            forall|jj: int|
                0 <= jj < j ==> row_width(
                    #[trigger] spec_chunk(tiles@, cols as int, jj),
                    max_height(spec_chunk(tiles@, cols as int, jj)),
                ) <= usize::MAX,
            forall|jj: int|
                0 <= jj < j ==> row_width(
                    #[trigger] spec_chunk(tiles@, cols as int, jj),
                    max_height(spec_chunk(tiles@, cols as int, jj)),
                ) * ch <= usize::MAX,
        decreases n - start,
    {
        let rem = n - start;
        let end = if rem > cols {
            start + cols
        } else {
            n
        };
        let ghost chunkj = spec_chunk(tiles@, cols as int, j);
        proof {
            assert((j + 1) * cols == j * cols + cols) by (nonlinear_arith);
            assert(chunkj =~= tiles@.subrange(start as int, end as int));
        }
        let mut hmax: usize = 0;
        let mut k: usize = start;
        proof {
            assert(tiles@.subrange(start as int, start as int) =~= Seq::<Image>::empty());
        }
        while k < end
            invariant
                start <= k <= end <= tiles@.len(),
                all_nonempty(tiles@),
                hmax == max_height(tiles@.subrange(start as int, k as int)),
            decreases end - k,
        {
            proof {
                lemma_row_prefix_step(tiles@, start as int, k as int, 0);
            }
            let hk = tiles[k].height;
            if hk > hmax {
                hmax = hk;
            }
            k = k + 1;
        }
        proof {
            assert(hmax == max_height(chunkj));
            assert(chunkj[0] == tiles@[start as int]);
            lemma_max_height_ge(chunkj, 0);
            assert(forall|ii: int|
                0 <= ii < chunkj.len() ==> (#[trigger] chunkj[ii]) == tiles@[start + ii]);
            assert(forall|ii: int| 0 <= ii < chunkj.len() ==> (#[trigger] chunkj[ii]).height
                >= 1);
        }
        proof {
            assert((j + 1) * cols == j * cols + cols) by (nonlinear_arith);
            vstd::arithmetic::div_mod::lemma_div_multiples_vanish(j + 1, cols as int);
            vstd::arithmetic::div_mod::lemma_div_is_ordered(
                (j + 1) * cols,
                n as int + cols - 1,
                cols as int,
            );
            assert(spec_n_chunks(n as int, cols as int) >= j + 1);
        }
        let mut rw: u128 = 0;
        let mut k2: usize = start;
        while k2 < end
            invariant
                n == tiles@.len(),
                n >= 1,
                cols == crate::layout::spec_column_count(n as int),
                ch == tiles@[0].channels,
                0 <= j,
                spec_n_chunks(n as int, cols as int) >= j + 1,
                start <= k2 <= end <= tiles@.len(),
                hmax == max_height(chunkj),
                hmax >= 1,
                chunkj == spec_chunk(tiles@, cols as int, j),
                chunkj =~= tiles@.subrange(start as int, end as int),
                all_wf(tiles@),
                all_nonempty(tiles@),
                same_channels(tiles@),
                rw == row_width(tiles@.subrange(start as int, k2 as int), hmax as int),
                rw <= usize::MAX,
            decreases end - k2,
        {
            let t_w = tiles[k2].width;
            let t_h = tiles[k2].height;
            let term: u128 = crate::layout::wide_mul(t_w, hmax) / (t_h as u128);
            proof {
                lemma_mul_nonnegative(t_w as int, hmax as int);
                lemma_div_pos_is_pos((t_w as int) * (hmax as int), t_h as int);
                assert(term == spec_scaled_width(t_w as int, t_h as int, hmax as int));
                assert(chunkj[k2 - start] == tiles@[k2 as int]);
                lemma_row_width_elem_le(chunkj, hmax as int, k2 - start);
                lemma_row_width_sub_prefix_le(
                    tiles@,
                    start as int,
                    k2 + 1,
                    end as int,
                    hmax as int,
                );
                lemma_row_prefix_step(tiles@, start as int, k2 as int, hmax as int);
            }
            if term > (usize::MAX as u128) {
                proof {
                    assert(row_width(chunkj, hmax as int) > usize::MAX);
                    assert(!layout_fits(tiles@, cols as int));
                }
                return Err(TileError::TooLarge);
            }
            let rw_new: u128 = rw + term;
            if rw_new > (usize::MAX as u128) {
                proof {
                    assert(row_width(tiles@.subrange(start as int, (k2 + 1) as int), hmax as int)
                        == rw_new);
                    assert(row_width(chunkj, hmax as int) > usize::MAX);
                    assert(!layout_fits(tiles@, cols as int));
                }
                return Err(TileError::TooLarge);
            }
            rw = rw_new;
            k2 = k2 + 1;
        }
        proof {
            assert(rw == row_width(chunkj, hmax as int));
        }
        let rwu: usize = rw as usize;
        let rwch: u128 = crate::layout::wide_mul(rwu, ch);
        if rwch > (usize::MAX as u128) {
            proof {
                assert(row_width(chunkj, hmax as int) * ch > usize::MAX);
                assert(!layout_fits(tiles@, cols as int));
            }
            return Err(TileError::TooLarge);
        }
        let th_new: u128 = (total_h as u128) + (hmax as u128);
        if th_new > (usize::MAX as u128) {
            proof {
                let m = spec_n_chunks(n as int, cols as int);
                lemma_grid_height_mono(tiles@, cols as int, j + 1, m);
                assert(grid_height_upto(tiles@, cols as int, m) > usize::MAX);
                assert(!layout_fits(tiles@, cols as int));
            }
            return Err(TileError::TooLarge);
        }
        total_h = th_new as usize;
        let rimg = crate::compose::build_row(tiles, start, end);
        proof {
            assert(tiles@.subrange(start as int, end as int) == chunkj);
        }
        row_imgs.push(rimg);
        proof {
            j = j + 1;
            assert((j - 1) * cols < n);
            assert(j * cols == (j - 1) * cols + cols) by (nonlinear_arith);
        }
        start = end;
    }
    proof {
        assert(start == n);
        assert(j >= 1);
        assert(j * cols >= n);
        assert((j - 1) * cols < n);
        let r_mod = n as int + cols - 1 - j * cols;
        assert(j * cols == (j - 1) * cols + cols) by (nonlinear_arith);
        assert(0 <= r_mod < cols);
        vstd::arithmetic::div_mod::lemma_fundamental_div_mod_converse(
            n as int + cols - 1,
            cols as int,
            j,
            r_mod,
        );
        assert(spec_n_chunks(n as int, cols as int) == j);
        lemma_max_row_width_props(row_imgs@);
        let wi = choose|wi: int|
            0 <= wi < row_imgs@.len() && (#[trigger] row_imgs@[wi]).width == max_row_width(
                row_imgs@,
            );
        lemma_mul_inequality(
            row_imgs@[wi].width as int,
            row_width(
                spec_chunk(tiles@, cols as int, wi),
                max_height(spec_chunk(tiles@, cols as int, wi)),
            ),
            ch as int,
        );
        assert(max_row_width(row_imgs@) * ch <= usize::MAX);
    }
    let grid = assemble_grid(&row_imgs);
    proof {
        lemma_grid_agg(row_imgs@, tiles@, cols as int, grid.width as int, ch as int);
    }
    Ok(grid)
}

} // verus!
