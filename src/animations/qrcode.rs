//! A QR code of a text, drawn as a bitmap with a light border.
use num_integer::Roots;
use vstd::prelude::*;

use crate::animations::grid::{matrix_at, matrix_shape, BoolMatrix};
use crate::animations::pixel::Pixels;
use crate::animations::Animation;
use crate::frame::Frame;

verus! {

/// The modules of the QR symbol that encodes `text`, row by row, light ones
/// as `true`; `None` where the text cannot be encoded.
pub uninterp spec fn qr_modules(text: Seq<char>) -> Option<Seq<bool>>;

/// Relies on qrcode's `QrCode::new` (error correction level M) on the text's
/// bytes and on `QrCode::to_colors`: the modules of the symbol, `width *
/// width` of them, or an error where the data does not fit a symbol. The
/// encoder picks a version of at most 40, so the width `4 v + 17` is at most
/// 177.
#[verifier::external_body]
fn encode_qr(text: &str) -> (r: Option<Vec<bool>>)
    ensures
        r is Some <==> qr_modules(text@) is Some,
        r matches Some(v) ==> qr_modules(text@) == Some(v@) && exists|w: nat|
            w <= 177 && #[trigger] (w * w) == v@.len(),
{
    match qrcode::QrCode::new(text) {
        Ok(code) => Some(
            code.to_colors().into_iter().map(
                |pixel| match pixel {
                    qrcode::Color::Light => true,
                    qrcode::Color::Dark => false,
                },
            ).collect(),
        ),
        Err(_) => None,
    }
}

/// Relies on num_integer's `Roots::sqrt` on `usize`: the truncated square
/// root, `r * r <= n < (r + 1) * (r + 1)`.
#[verifier::external_body]
fn integer_sqrt(n: usize) -> (r: usize)
    ensures
        r * r <= n < (r + 1) * (r + 1),
{
    n.sqrt()
}

/// The pixel at row `r` and column `c` of the QR image: the module at
/// column `r - 2` and row `c - 2` of the `dim` by `dim` symbol (its modules
/// given row by row), inside a light border two pixels wide.
pub open spec fn qr_pixel(modules: Seq<bool>, dim: int, r: int, c: int) -> bool {
    if 2 <= r < dim + 2 && 2 <= c < dim + 2 {
        modules[(c - 2) * dim + (r - 2)]
    } else {
        true
    }
}

proof fn lemma_root_unique(w: int, d: int, n: int)
    requires
        0 <= w,
        0 <= d,
        w * w == n,
        d * d <= n < (d + 1) * (d + 1),
    ensures
        w == d,
{
    if w < d {
        assert((w + 1) * (w + 1) <= d * d) by (nonlinear_arith)
            requires
                0 <= w,
                w + 1 <= d,
        ;
        assert((w + 1) * (w + 1) > w * w) by (nonlinear_arith)
            requires
                0 <= w,
        ;
    } else if w > d {
        assert((d + 1) * (d + 1) <= w * w) by (nonlinear_arith)
            requires
                0 <= d,
                d + 1 <= w,
        ;
    }
}

/// The QR code of a text at a fixed place of the frame.
pub struct QrCode {
    pixels: Pixels,
}

impl QrCode {
    /// The image that is drawn.
    pub closed spec fn image(&self) -> BoolMatrix {
        self.pixels.image
    }

    /// Where the image's corner is drawn.
    pub closed spec fn position(&self) -> (usize, usize) {
        self.pixels.pos_top_left
    }

    /// The QR code of `text` with a light border two pixels wide, drawn with
    /// its corner at `pos_top_left`; `None` exactly where the text cannot be
    /// encoded.
    pub fn new(text: &str, pos_top_left: (usize, usize)) -> (r: Option<QrCode>)
        ensures
            qr_modules(text@) is None <==> r is None,
            r matches Some(q) ==> ({
                let modules = qr_modules(text@)->Some_0;
                let size = matrix_shape(q.image()).0;
                let dim = size - 4;
                &&& matrix_shape(q.image()).1 == size
                &&& size >= 4
                &&& dim * dim == modules.len()
                &&& q.position() == pos_top_left
                &&& forall|row: int, col: int|
                    0 <= row < size && 0 <= col < size ==> #[trigger] matrix_at(q.image(), row, col)
                        == qr_pixel(modules, dim, row, col)
            }),
    {
        let modules = match encode_qr(text) {
            Some(m) => m,
            None => {
                return None;
            },
        };
        let mlen = modules.len();
        // Height/width of the QR code.
        let dimension = integer_sqrt(mlen);
        proof {
            let w = choose|w: nat| w <= 177 && #[trigger] (w * w) == modules@.len();
            lemma_root_unique(w as int, dimension as int, modules@.len() as int);
            assert((dimension + 4) * (dimension + 4) <= 181 * 181) by (nonlinear_arith)
                requires
                    dimension <= 177,
            ;
        }
        let image = match BoolMatrix::from_columns(dimension, dimension, modules) {
            Some(m) => m,
            None => {
                return None;
            },
        };
        // Add 2 pixels of white border.
        let image = image.bordered();
        Some(QrCode { pixels: Pixels { image, pos_top_left } })
    }
}

impl Animation for QrCode {
    fn name(&self) -> &'static str {
        "QR Code"
    }

    fn author(&self) -> &'static str {
        "Imarok"
    }

    fn render(&mut self, frame: &mut Frame) {
        self.pixels.render(frame)
    }
}

} // verus!
