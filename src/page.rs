use crate::geometry::{PageGeometry, MAX_EXTENT};
use crate::raster::{
    bgra_to_rgba, encode_png_data_url, png_data_url_of, png_rgba8, swap_red_blue_spec, RenderError,
};
use crate::rotation::{overlay_dims, overlay_dims_spec, RotationAngle};
use crate::text::{
    filter_overlapping_text, filter_text_spec, group_words, group_words_spec, views, Glyph,
    TextElement, TextElementView,
};
use vstd::prelude::*;

verus! {

/// One rendered page: its image as a data URL, its filtered text elements,
/// its point-space size after rotation, its index and its rotation.
pub struct PdfPageData {
    pub image_data: String,
    pub text_elements: Vec<TextElement>,
    pub page_width: u32,
    pub page_height: u32,
    pub page_index: usize,
    pub rotation: RotationAngle,
}

/// The mathematical value of a `PdfPageData`.
pub struct PageView {
    pub image_data: Seq<char>,
    pub text_elements: Seq<TextElementView>,
    pub page_width: u32,
    pub page_height: u32,
    pub page_index: usize,
    pub rotation: RotationAngle,
}

impl View for PdfPageData {
    type V = PageView;

    open spec fn view(&self) -> PageView {
        PageView {
            image_data: self.image_data@,
            text_elements: views(self.text_elements@),
            page_width: self.page_width,
            page_height: self.page_height,
            page_index: self.page_index,
            rotation: self.rotation,
        }
    }
}

/// Copies a list of text elements.
pub fn copy_elements(v: &Vec<TextElement>) -> (r: Vec<TextElement>)
    ensures
        views(r@) == views(v@),
{
    let mut out: Vec<TextElement> = Vec::with_capacity(v.len());
    let mut i: usize = 0;
    while i < v.len()
        invariant
            i <= v@.len(),
            views(out@) == views(v@).take(i as int),
        decreases v@.len() - i,
    {
        let e = v[i].copy_of();
        proof {
            crate::text::lemma_views_push(out@, e);
            assert(views(v@).take(i + 1) =~= views(v@).take(i as int).push(v@[i as int]@));
        }
        out.push(e);
        i = i + 1;
    }
    proof {
        assert(views(v@).take(i as int) =~= views(v@));
    }
    out
}

impl PdfPageData {
    /// An equal, independent copy.
    pub fn copy_of(&self) -> (r: PdfPageData)
        ensures
            r@ == self@,
    {
        PdfPageData {
            image_data: self.image_data.clone(),
            text_elements: copy_elements(&self.text_elements),
            page_width: self.page_width,
            page_height: self.page_height,
            page_index: self.page_index,
            rotation: self.rotation,
        }
    }
}

/// What the rasterizer produced for one page, as plain values: the page's
/// unrotated point-space size, the bitmap's size and BGRA bytes, and the
/// page's glyphs in document order.
pub struct RasterOutput {
    pub page_width: u32,
    pub page_height: u32,
    pub bitmap_width: u32,
    pub bitmap_height: u32,
    pub bgra: Vec<u8>,
    pub glyphs: Vec<Glyph>,
}

/// The geometry used to place a page's text: the upright point-space size,
/// the rotation, and the bitmap's pixel size.
pub open spec fn placement_geometry(raster: &RasterOutput, rotation: RotationAngle) -> PageGeometry {
    PageGeometry {
        page_width: raster.page_width,
        page_height: raster.page_height,
        bitmap_width: raster.bitmap_width,
        bitmap_height: raster.bitmap_height,
        rotation,
    }
}

/// The words of a page, filtered, in reading order.
pub open spec fn page_text_spec(g: PageGeometry, glyphs: Seq<Glyph>) -> Seq<TextElementView> {
    filter_text_spec(group_words_spec(g, glyphs))
}

/// Extracts a page's text: groups glyphs into words in pixel space, then
/// removes noise, overlaps and duplicates.
pub fn extract_page_text(g: &PageGeometry, glyphs: &Vec<Glyph>, page_index: usize) -> (r: Vec<
    TextElement,
>)
    requires
        g.wf(),
    ensures
        views(r@) == page_text_spec(*g, glyphs@),
{
    let words = group_words(g, glyphs);
    filter_overlapping_text(words, page_index)
}

/// Builds the result for page `page_index` of a document of `page_count`
/// pages from what the rasterizer produced. The checks come in this order:
/// the index against the page count, the geometry, the pixel buffer, the
/// encoder.
pub fn build_page_data(
    page_index: usize,
    page_count: usize,
    rotation: RotationAngle,
    raster: &RasterOutput,
) -> (r: Result<PdfPageData, RenderError>)
    ensures
        page_index >= page_count ==> r == Err::<PdfPageData, RenderError>(
            RenderError::PageOutOfRange,
        ),
        page_index < page_count && !placement_geometry(raster, rotation).wf() ==> r == Err::<
            PdfPageData,
            RenderError,
        >(RenderError::InvalidGeometry),
        page_index < page_count && placement_geometry(raster, rotation).wf() && raster.bgra@.len()
            != raster.bitmap_width * raster.bitmap_height * 4 ==> r == Err::<PdfPageData, RenderError>(
            RenderError::InvalidImage,
        ),
        page_index < page_count && placement_geometry(raster, rotation).wf() && raster.bgra@.len()
            == raster.bitmap_width * raster.bitmap_height * 4 && png_rgba8(
            swap_red_blue_spec(raster.bgra@),
            raster.bitmap_width,
            raster.bitmap_height,
        ).len() < usize::MAX / 2 ==> r is Ok,
        r is Err ==> r == Err::<PdfPageData, RenderError>(RenderError::PageOutOfRange) || r == Err::<
            PdfPageData,
            RenderError,
        >(RenderError::InvalidGeometry) || r == Err::<PdfPageData, RenderError>(
            RenderError::InvalidImage,
        ) || r == Err::<PdfPageData, RenderError>(RenderError::EncodeFailed),
        r matches Ok(d) ==> {
            &&& page_index < page_count
            &&& raster.bgra@.len() == raster.bitmap_width * raster.bitmap_height * 4
            &&& d.page_index == page_index
            &&& d.rotation == rotation
            &&& (d.page_width, d.page_height) == overlay_dims_spec(
                raster.page_width,
                raster.page_height,
                rotation,
            )
            &&& d@.text_elements == page_text_spec(placement_geometry(raster, rotation), raster.glyphs@)
            &&& d.image_data@ == png_data_url_of(
                swap_red_blue_spec(raster.bgra@),
                raster.bitmap_width,
                raster.bitmap_height,
            )
        },
{
    if page_index >= page_count {
        return Err(RenderError::PageOutOfRange);
    }
    let dims = overlay_dims(raster.page_width, raster.page_height, rotation);
    let g = PageGeometry {
        page_width: raster.page_width,
        page_height: raster.page_height,
        bitmap_width: raster.bitmap_width,
        bitmap_height: raster.bitmap_height,
        rotation,
    };
    if g.page_width == 0 || g.page_width > MAX_EXTENT || g.page_height == 0 || g.page_height
        > MAX_EXTENT || g.bitmap_width == 0 || g.bitmap_width > MAX_EXTENT || g.bitmap_height == 0
        || g.bitmap_height > MAX_EXTENT {
        return Err(RenderError::InvalidGeometry);
    }
    let img = match bgra_to_rgba(raster.bitmap_width, raster.bitmap_height, &raster.bgra) {
        Ok(img) => img,
        Err(e) => {
            return Err(e);
        },
    };
    let image_data = match encode_png_data_url(&img) {
        Ok(s) => s,
        Err(e) => {
            return Err(e);
        },
    };
    let text_elements = extract_page_text(&g, &raster.glyphs, page_index);
    let d = PdfPageData {
        image_data,
        text_elements,
        page_width: dims.0,
        page_height: dims.1,
        page_index,
        rotation,
    };
    Ok(d)
}

} // verus!
