use vstd::prelude::*;

verus! {

/// Resampling filter used when an image is scaled to an output.
#[derive(Clone, Copy, Debug, PartialEq, Eq, Structural)]
pub enum Filter {
    Nearest,
    Triangle,
    CatmullRom,
    Gaussian,
    Lanczos3,
}

/// The name of each filter, as bytes.
pub open spec fn filter_name(f: Filter) -> Seq<u8> {
    match f {
        Filter::Nearest => seq![78u8, 101, 97, 114, 101, 115, 116],
        Filter::Triangle => seq![84u8, 114, 105, 97, 110, 103, 108, 101],
        Filter::CatmullRom => seq![67u8, 97, 116, 109, 117, 108, 108, 82, 111, 109],
        Filter::Gaussian => seq![71u8, 97, 117, 115, 115, 105, 97, 110],
        Filter::Lanczos3 => seq![76u8, 97, 110, 99, 122, 111, 115, 51],
    }
}

fn bytes_eq(a: &[u8], b: &[u8]) -> (r: bool)
    ensures
        r == (a@ == b@),
{
    if a.len() != b.len() {
        return false;
    }
    let mut i: usize = 0;
    while i < a.len()
        invariant
            a@.len() == b@.len(),
            i <= a@.len(),
            forall|j: int| 0 <= j < i ==> a@[j] == b@[j],
        decreases a@.len() - i,
    {
        if a[i] != b[i] {
            return false;
        }
        i = i + 1;
    }
    assert(a@ =~= b@);
    true
}

impl Filter {
    /// The filter's name.
    pub fn name(&self) -> (r: Vec<u8>)
        ensures
            r@ == filter_name(*self),
    {
        match self {
            Filter::Nearest => vec![78u8, 101, 97, 114, 101, 115, 116],
            Filter::Triangle => vec![84u8, 114, 105, 97, 110, 103, 108, 101],
            Filter::CatmullRom => vec![67u8, 97, 116, 109, 117, 108, 108, 82, 111, 109],
            Filter::Gaussian => vec![71u8, 97, 117, 115, 115, 105, 97, 110],
            Filter::Lanczos3 => vec![76u8, 97, 110, 99, 122, 111, 115, 51],
        }
    }

    /// The filter with exactly this name; names are case-sensitive.
    pub fn from_name(s: &[u8]) -> (r: Option<Filter>)
        ensures
            r matches Some(f) ==> filter_name(f) == s@,
            r is None ==> forall|f: Filter| filter_name(f) != s@,
    {
        let all: [Filter; 5] = [
            Filter::Nearest,
            Filter::Triangle,
            Filter::CatmullRom,
            Filter::Gaussian,
            Filter::Lanczos3,
        ];
        let mut i: usize = 0;
        while i < 5
            invariant
                i <= 5,
                all@ == seq![
                    Filter::Nearest,
                    Filter::Triangle,
                    Filter::CatmullRom,
                    Filter::Gaussian,
                    Filter::Lanczos3,
                ],
                forall|j: int| 0 <= j < i ==> filter_name(#[trigger] all@[j]) != s@,
            decreases 5 - i,
        {
            let f = all[i];
            let name = f.name();
            if bytes_eq(name.as_slice(), s) {
                return Some(f);
            }
            i = i + 1;
        }
        proof {
            assert forall|f: Filter| filter_name(f) != s@ by {
                match f {
                    Filter::Nearest => assert(all@[0] == f),
                    Filter::Triangle => assert(all@[1] == f),
                    Filter::CatmullRom => assert(all@[2] == f),
                    Filter::Gaussian => assert(all@[3] == f),
                    Filter::Lanczos3 => assert(all@[4] == f),
                }
            }
        }
        None
    }
}

/// A decoded 8-bit RGBA image: four bytes per pixel, rows top to bottom.
pub struct RgbaImage {
    pub width: u32,
    pub height: u32,
    pub data: Vec<u8>,
}

impl RgbaImage {
    /// The pixel data holds exactly `width * height` pixels.
    pub open spec fn wf(&self) -> bool {
        self.data@.len() == 4 * self.width * self.height
    }
}

/// `buf` with bytes 0 and 2 of every pixel exchanged (RGBA to BGRA and back).
pub open spec fn swizzled(buf: Seq<u8>) -> Seq<u8> {
    Seq::new(
        buf.len(),
        |k: int|
            if k % 4 == 0 {
                buf[k + 2]
            } else if k % 4 == 2 {
                buf[k - 2]
            } else {
                buf[k]
            },
    )
}

/// `swizzled` where the buffer holds whole pixels; any other buffer as it is.
pub open spec fn swizzled_whole(buf: Seq<u8>) -> Seq<u8> {
    if buf.len() % 4 == 0 {
        swizzled(buf)
    } else {
        buf
    }
}

/// What `image` computes when it scales and crops an image to cover
/// `nwidth` by `nheight` pixels with the given filter.
pub uninterp spec fn filled_of(
    data: Seq<u8>,
    width: u32,
    height: u32,
    nwidth: u32,
    nheight: u32,
    filter: Filter,
) -> Seq<u8>;

/// Relies on image's `DynamicImage::resize_to_fill`: the result is a function
/// of the pixels, both sizes and the filter alone.
#[verifier::external_body]
fn resize_fill(img: &RgbaImage, nwidth: u32, nheight: u32, filter: Filter) -> (r: Vec<u8>)
    requires
        img.wf(),
        img.width > 0,
        img.height > 0,
        nwidth > 0,
        nheight > 0,
    ensures
        r@ == filled_of(img.data@, img.width, img.height, nwidth, nheight, filter),
{
    let f = match filter {
        Filter::Nearest => image::imageops::FilterType::Nearest,
        Filter::Triangle => image::imageops::FilterType::Triangle,
        Filter::CatmullRom => image::imageops::FilterType::CatmullRom,
        Filter::Gaussian => image::imageops::FilterType::Gaussian,
        Filter::Lanczos3 => image::imageops::FilterType::Lanczos3,
    };
    let buf = image::RgbaImage::from_raw(img.width, img.height, img.data.clone()).unwrap_or_default();
    image::DynamicImage::ImageRgba8(buf).resize_to_fill(nwidth, nheight, f).into_rgba8().into_raw()
}

/// Exchanges bytes 0 and 2 of every whole pixel in place.
pub fn swizzle(buf: &mut Vec<u8>)
    requires
        old(buf)@.len() % 4 == 0,
    ensures
        final(buf)@ == swizzled(old(buf)@),
{
    let ghost orig = buf@;
    let total = buf.len();
    let n = total / 4;
    let mut p: usize = 0;
    while p < n
        invariant
            n == orig.len() / 4,
            orig.len() == total,
            orig.len() % 4 == 0,
            buf@.len() == orig.len(),
            p <= n,
            forall|k: int|
                0 <= k < orig.len() ==> #[trigger] buf@[k] == (if k / 4 < p {
                    swizzled(orig)[k]
                } else {
                    orig[k]
                }),
        decreases n - p,
    {
        assert(4 * p + 3 < orig.len()) by (nonlinear_arith)
            requires
                p < n,
                n == orig.len() / 4,
                orig.len() % 4 == 0,
        ;
        let at = 4 * p;
        let first = buf[at];
        let third = buf[at + 2];
        buf.set(at, third);
        buf.set(at + 2, first);
        p = p + 1;
        proof {
            assert forall|k: int| 0 <= k < orig.len() implies #[trigger] buf@[k] == (if k / 4 < p {
                swizzled(orig)[k]
            } else {
                orig[k]
            }) by {
                assert(k == 4 * (k / 4) + k % 4);
            }
        }
    }
    assert(buf@ =~= swizzled(orig));
}

/// Brings a decoded image to an output's size and into surface byte order.
/// An image that already has that size is not resampled.
pub fn img_resize(img: RgbaImage, dimensions: (u32, u32), filter: Filter) -> (r: Vec<u8>)
    requires
        img.wf(),
        img.width > 0,
        img.height > 0,
        dimensions.0 > 0,
        dimensions.1 > 0,
    ensures
        (img.width, img.height) == dimensions ==> r@ == swizzled(img.data@),
        (img.width, img.height) != dimensions ==> r@ == swizzled_whole(
            filled_of(img.data@, img.width, img.height, dimensions.0, dimensions.1, filter),
        ),
{
    proof {
        let wh: int = img.width * img.height;
        assert(4 * img.width * img.height == 4 * wh) by (nonlinear_arith)
            requires
                wh == img.width * img.height,
        ;
        assert((4 * wh) % 4 == 0);
    }
    let (width, height) = dimensions;
    let mut resized = if img.width != width || img.height != height {
        resize_fill(&img, width, height, filter)
    } else {
        img.data
    };
    if resized.len() % 4 == 0 {
        swizzle(&mut resized);
    }
    resized
}

/// Swapping bytes 0 and 2 twice gives the buffer back.
pub proof fn lemma_swizzle_involution(buf: Seq<u8>)
    requires
        buf.len() % 4 == 0,
    ensures
        swizzled(swizzled(buf)) == buf,
{
    let s = swizzled(buf);
    assert forall|k: int| 0 <= k < buf.len() implies swizzled(s)[k] == buf[k] by {
        assert(k == 4 * (k / 4) + k % 4);
        if k % 4 == 0 {
            assert((k + 2) % 4 == 2);
            assert(k + 2 < buf.len());
        } else if k % 4 == 2 {
            assert((k - 2) % 4 == 0);
        }
    }
    assert(swizzled(s) =~= buf);
}

} // verus!
