//! Page geometry of a DOCX document: size in twips, orientation and the
//! pixel size used for rendering.
use vstd::prelude::*;
use crate::chars::str_eq;

verus! {

/// Paper orientation of a page.
#[derive(Debug, Clone, Copy, PartialEq, Eq, Structural)]
pub enum PageOrientation {
    Portrait,
    Landscape,
}

impl PageOrientation {
    /// The lower-case name of the orientation.
    pub fn as_str(&self) -> (s: &'static str)
        ensures
            s@ == (match *self {
                PageOrientation::Portrait => "portrait"@,
                PageOrientation::Landscape => "landscape"@,
            }),
    {
        match self {
            PageOrientation::Portrait => "portrait",
            PageOrientation::Landscape => "landscape",
        }
    }
}

/// Size and orientation of a page, in twips and in pixels.
#[derive(Debug, Clone, Copy)]
pub struct PageInfo {
    pub width_px: u32,
    pub height_px: u32,
    pub orientation: PageOrientation,
    pub width_twip: u32,
    pub height_twip: u32,
}

/// Width of an A4 page in twips.
pub const DEFAULT_TWIP_W: u32 = 11906;
/// Height of an A4 page in twips.
pub const DEFAULT_TWIP_H: u32 = 16838;
/// Smallest pixel extent of a rendered page.
pub const MIN_PAGE_PX: u32 = 800;
/// Largest pixel extent of a rendered page.
pub const MAX_PAGE_PX: u32 = 4000;

/// The `w`, `h` and `orient` entries of a `<w:pgSz>` element as they appear
/// in its JSON form: numbers for the sizes and a string for the orientation.
#[derive(Debug)]
pub struct PageSizeFields {
    pub w: Option<u64>,
    pub h: Option<u64>,
    pub orient: Option<String>,
}

/// Plain-value form of [`PageSizeFields`].
pub type PageSizeView = (Option<u64>, Option<u64>, Option<Seq<char>>);

impl View for PageSizeFields {
    type V = PageSizeView;

    open spec fn view(&self) -> PageSizeView {
        (self.w, self.h, match self.orient {
            Some(s) => Some(s@),
            None => None,
        })
    }
}

/// Page sizes found in a DOCX document: the section properties attached to
/// each top-level child (only paragraphs can carry one) in document order,
/// and the section properties of the document body itself.
pub struct DocxPageSizes {
    pub paragraph_sections: Vec<Option<PageSizeFields>>,
    pub document_section: PageSizeFields,
}

/// Plain-value form of [`DocxPageSizes`].
pub type DocxPageSizesView = (Seq<Option<PageSizeView>>, PageSizeView);

impl View for DocxPageSizes {
    type V = DocxPageSizesView;

    open spec fn view(&self) -> DocxPageSizesView {
        (
            Seq::new(
                self.paragraph_sections@.len(),
                |i: int|
                    match self.paragraph_sections@[i] {
                        Some(p) => Some(p@),
                        None => None,
                    },
            ),
            self.document_section@,
        )
    }
}

/// Plain-value form of a parse outcome: `None` when the document could not
/// be read.
pub open spec fn parsed_view(parsed: Option<DocxPageSizes>) -> Option<DocxPageSizesView> {
    match parsed {
        Some(p) => Some(p@),
        None => None,
    }
}

/// The page size of the first section: the first paragraph-level section,
/// or the body section when no paragraph carries one.
pub open spec fn first_section(paras: Seq<Option<PageSizeView>>, body: PageSizeView) -> PageSizeView
    decreases paras.len(),
{
    if paras.len() == 0 {
        body
    } else {
        match paras[0] {
            Some(p) => p,
            None => first_section(paras.drop_first(), body),
        }
    }
}

/// The page size used for a parsed document; an unreadable document has no
/// entries at all.
pub open spec fn selected_page_size(parsed: Option<DocxPageSizesView>) -> PageSizeView {
    match parsed {
        Some(p) => first_section(p.0, p.1),
        None => (None, None, None),
    }
}

/// A size entry read as twips (truncated to 32 bits), or the default.
pub open spec fn twips_or(v: Option<u64>, default: u32) -> u32 {
    match v {
        Some(x) => x as u32,
        None => default,
    }
}

/// Orientation from an explicit `orient` entry, or from the sizes.
pub open spec fn orientation_for(orient: Option<Seq<char>>, w: u32, h: u32) -> PageOrientation {
    match orient {
        Some(o) => if o == "landscape"@ {
            PageOrientation::Landscape
        } else {
            PageOrientation::Portrait
        },
        None => if w > h {
            PageOrientation::Landscape
        } else {
            PageOrientation::Portrait
        },
    }
}

/// Pixel extent of `twips` at `dpi` dots per inch (1440 twips per inch),
/// kept within 800 and 4000 pixels.
pub open spec fn pixels_for(twips: u32, dpi: u32) -> u32 {
    let v = (twips as int * dpi as int) / 1440;
    if v < MIN_PAGE_PX {
        MIN_PAGE_PX
    } else if v > MAX_PAGE_PX {
        MAX_PAGE_PX
    } else {
        v as u32
    }
}

/// The page information for a page size entry at the given resolution.
pub open spec fn page_info_for(size: PageSizeView, dpi: u32) -> PageInfo {
    let w = twips_or(size.0, DEFAULT_TWIP_W);
    let h = twips_or(size.1, DEFAULT_TWIP_H);
    PageInfo {
        width_px: pixels_for(w, dpi),
        height_px: pixels_for(h, dpi),
        orientation: orientation_for(size.2, w, h),
        width_twip: w,
        height_twip: h,
    }
}

/// Whatever the document says, the rendered page is between 800 and 4000
/// pixels in each direction.
pub proof fn law_page_pixels_in_range(size: PageSizeView, dpi: u32)
    ensures
        MIN_PAGE_PX <= page_info_for(size, dpi).width_px <= MAX_PAGE_PX,
        MIN_PAGE_PX <= page_info_for(size, dpi).height_px <= MAX_PAGE_PX,
{
}

/// Pixel extent of `twips` at `dpi`, clamped to the rendering range.
pub fn twips_to_pixels(twips: u32, dpi: u32) -> (r: u32)
    ensures
        r == pixels_for(twips, dpi),
{
    assert(twips as int * dpi as int <= 0xffff_ffff * 0xffff_ffff) by (nonlinear_arith)
        requires
            twips <= 0xffff_ffff,
            dpi <= 0xffff_ffff,
    ;
    let prod: u64 = twips as u64 * dpi as u64;
    let v: u64 = prod / 1440;
    if v < MIN_PAGE_PX as u64 {
        MIN_PAGE_PX
    } else if v > MAX_PAGE_PX as u64 {
        MAX_PAGE_PX
    } else {
        v as u32
    }
}

/// The page information for one page size entry.
pub fn page_info_from_size(size: &PageSizeFields, dpi: u32) -> (r: PageInfo)
    ensures
        r == page_info_for(size@, dpi),
{
    let w: u32 = match size.w {
        Some(x) => x as u32,
        None => DEFAULT_TWIP_W,
    };
    let h: u32 = match size.h {
        Some(x) => x as u32,
        None => DEFAULT_TWIP_H,
    };
    let orientation = match &size.orient {
        Some(o) => if str_eq(o.as_str(), "landscape") {
            PageOrientation::Landscape
        } else {
            PageOrientation::Portrait
        },
        None => if w > h {
            PageOrientation::Landscape
        } else {
            PageOrientation::Portrait
        },
    };
    PageInfo {
        width_px: twips_to_pixels(w, dpi),
        height_px: twips_to_pixels(h, dpi),
        orientation,
        width_twip: w,
        height_twip: h,
    }
}

/// The page size of the first section of a parsed document.
pub fn first_section_size(sizes: &DocxPageSizes) -> (r: PageSizeFields)
    ensures
        r@ == first_section(sizes@.0, sizes@.1),
{
    let n = sizes.paragraph_sections.len();
    let mut i: usize = 0;
    assert(sizes@.0.skip(0) =~= sizes@.0);
    while i < n
        invariant
            n == sizes.paragraph_sections@.len(),
            i <= n,
            first_section(sizes@.0, sizes@.1) == first_section(sizes@.0.skip(i as int), sizes@.1),
        decreases n - i,
    {
        assert(sizes@.0.skip(i as int).drop_first() =~= sizes@.0.skip(i + 1));
        match &sizes.paragraph_sections[i] {
            Some(p) => {
                return p.clone_fields();
            },
            None => {},
        }
        i = i + 1;
    }
    assert(sizes@.0.skip(n as int).len() == 0);
    sizes.document_section.clone_fields()
}

impl PageSizeFields {
    /// A copy of the entries.
    pub fn clone_fields(&self) -> (r: PageSizeFields)
        ensures
            r@ == self@,
    {
        PageSizeFields {
            w: self.w,
            h: self.h,
            orient: match &self.orient {
                Some(s) => Some(s.clone()),
                None => None,
            },
        }
    }
}

/// Page size and orientation of the first section of a parsed DOCX file,
/// at the given resolution.  `parsed` is what the DOCX reader found (`None`
/// when the file could not be read).  Unreadable files and missing entries
/// fall back to an A4 page; an explicit `orient` entry decides the
/// orientation, otherwise a page wider than tall is landscape.
pub fn detect_page_info(parsed: &Option<DocxPageSizes>, dpi: u32) -> (r: PageInfo)
    ensures
        r == page_info_for(selected_page_size(parsed_view(*parsed)), dpi),
{
    let size = match parsed {
        Some(sizes) => first_section_size(sizes),
        None => PageSizeFields { w: None, h: None, orient: None },
    };
    page_info_from_size(&size, dpi)
}

} // verus!
