//! What is on the screen: the position of images, the part of them that is shown, and
//! what is sent to the terminal for them.

use crate::app::{images_known, AppView};
use crate::images::ImageView;
use crate::kitty::{
    base64_text, chunk_count, deletion, escape, placement, transmission,
};
use crate::placing::{
    drawing, image_at, low16, missing_pngs, now_placed, on_screen, removal, with_drawn, with_png,
};
use crate::text::decimal;
use vstd::prelude::*;
use vstd::utf8::encode_utf8;

verus! {

/// The greater one of two numbers.
pub open spec fn larger(a: int, b: int) -> int {
    if a > b {
        a
    } else {
        b
    }
}

/// The smaller one of two numbers.
pub open spec fn smaller(a: int, b: int) -> int {
    if a < b {
        a
    } else {
        b
    }
}

/// Whether an image that starts at a display line has one that the screen shows.
pub open spec fn meets_the_screen(a: AppView, img: ImageView, row: nat) -> bool {
    &&& img.cw > 0
    &&& img.ch > 0
    &&& row < a.offset + a.viewport
    &&& row + img.ch > a.offset
    &&& a.viewport > 0
}

/// Whether the image of the row `k` is shown: a part of it is on the screen, and the
/// terminal has the image or its PNG is at hand.
pub open spec fn is_shown(a: AppView, k: int) -> bool {
    let (i, row) = a.image_rows[k];
    let img = a.images[i as int];
    meets_the_screen(a, img, row) && (a.image_placed[i as int] || img.png is Some)
}

/// Whether `y` is the pixel row, out of `h`, at which the line `n` of an image of `ch`
/// lines begins.
pub open spec fn is_pixel_row(y: u32, n: int, h: u32, ch: u16) -> bool {
    y * ch <= h * n < (y + 1) * ch
}

/// Whether `src` is the part of an image that its lines from `lo` up to `hi` show: all
/// of it, or the pixel rows of just these lines in their whole width.
pub open spec fn shows_lines(
    img: ImageView,
    lo: int,
    hi: int,
    src: Option<(u32, u32, u32, u32)>,
) -> bool {
    match img.png_dims {
        None => src is None,
        Some((w, h)) => if h == 0 || (lo == 0 && hi == img.ch) {
            src is None
        } else {
            match src {
                Some((x0, y0, x1, y1)) => x0 == 0 && x1 == w && is_pixel_row(y0, lo, h, img.ch)
                    && is_pixel_row(y1, hi, h, img.ch),
                None => false,
            }
        },
    }
}

proof fn lemma_pixel_row(n: int, h: u32, ch: u16)
    requires
        0 <= n <= ch,
        ch > 0,
    ensures
        is_pixel_row((h as nat * n as nat / ch as nat) as u32, n, h, ch),
{
    let q = (h * n) / ch as int;
    vstd::arithmetic::div_mod::lemma_fundamental_div_mod(h * n, ch as int);
    vstd::arithmetic::div_mod::lemma_mod_bound(h * n, ch as int);
    assert(0 <= h * n <= h * ch) by (nonlinear_arith)
        requires
            0 <= n <= ch,
            h >= 0,
    ;
    assert(0 <= q <= h) by (nonlinear_arith)
        requires
            h * n == ch * q + (h * n) % (ch as int),
            0 <= (h * n) % (ch as int) < ch,
            0 <= h * n <= h * ch,
            ch > 0,
    ;
    assert(q * ch == ch * q) by (nonlinear_arith);
    assert((q + 1) * ch == ch * q + ch) by (nonlinear_arith);
}

proof fn lemma_one_pixel_row(y: u32, z: u32, n: int, h: u32, ch: u16)
    requires
        is_pixel_row(y, n, h, ch),
        is_pixel_row(z, n, h, ch),
    ensures
        y == z,
{
    let t = h * n;
    assert(y == z) by (nonlinear_arith)
        requires
            y * ch <= t < (y + 1) * ch,
            z * ch <= t < (z + 1) * ch,
            ch >= 0,
    ;
}

/// A frame shows every image that is on the screen where it stands in the text: the
/// first line of it that the screen shows is put on the row of that display line, in
/// the middle of the columns of the text, and it takes as many rows as the screen shows
/// of it. The terminal gets the image first, unless it has it.
#[verifier::spinoff_prover]
#[verifier::rlimit(60)]
pub proof fn images_stand_where_their_lines_are(
    a: AppView,
    k: int,
    line: u16,
    col: u16,
    rows: u16,
    src: Option<(u32, u32, u32, u32)>,
)
    requires
        images_known(a),
        0 <= k < a.image_rows.len(),
        ({
            let (i, row) = a.image_rows[k];
            let img = a.images[i as int];
            let lo = larger(row as int, a.offset as int);
            let hi = smaller(row + img.ch, a.offset + a.viewport);
            is_shown(a, k) ==> {
                &&& line == a.content_y + 1 + (lo - a.offset)
                &&& col == a.content_x + 1 + larger(a.content_w - img.cw, 0) / 2
                &&& rows == hi - lo
                &&& shows_lines(img, lo - row, hi - row, src)
            }
        }),
    ensures
        ({
            let (i, row) = a.image_rows[k];
            let img = a.images[i as int];
            let placed = placement(img.id, line, col, img.cw, rows, src);
            let payload = base64_text(img.png->0);
            let sent = transmission(img.id, payload, chunk_count(payload.len()));
            let before = drawing(a, k as nat);
            let now = drawing(a, (k + 1) as nat);
            &&& is_shown(a, k) && a.image_placed[i as int] ==> now == before + placed
            &&& is_shown(a, k) && !a.image_placed[i as int] ==> now == before + (sent + placed)
            &&& !is_shown(a, k) ==> now == before
        }),
        drawing(a, 0).len() == 0,
{
    let (i, row) = a.image_rows[k];
    let img = a.images[i as int];
    let lo = larger(row as int, a.offset as int);
    let hi = smaller(row + img.ch, a.offset + a.viewport);
    if is_shown(a, k) {
        assert(crate::placing::visible_rows(a, img, row) == Some((lo as nat, hi as nat)));
        let rect = crate::placing::source_rect(img, row, lo as nat, hi as nat);
        if let Some((w, h)) = img.png_dims {
            lemma_pixel_row(lo - row, h, img.ch);
            lemma_pixel_row(hi - row, h, img.ch);
            if let Some((x0, y0, x1, y1)) = src {
                lemma_one_pixel_row(
                    y0,
                    (h as nat * (lo - row) as nat / img.ch as nat) as u32,
                    lo - row,
                    h,
                    img.ch,
                );
                lemma_one_pixel_row(
                    y1,
                    (h as nat * (hi - row) as nat / img.ch as nat) as u32,
                    hi - row,
                    h,
                    img.ch,
                );
            }
        }
        assert(src == rect);
        assert(low16((a.content_y + (lo - a.offset) + 1) as nat) == line);
        assert(low16(crate::placing::screen_col(a, img)) == col);
        let placed = placement(img.id, line, col, img.cw, rows, src);
        assert(Seq::<u8>::empty() + placed =~= placed);
    } else {
        assert(!crate::placing::is_drawn(a, k));
    }
}

/// Positions on the screen are kept as they are, as far as the terminal can count.
pub proof fn positions_are_kept(n: nat)
    ensures
        n < 0x10000 ==> low16(n) == n,
{
}

/// An image counts as drawn after a frame just where it is shown in the frame.
pub proof fn images_are_drawn_where_they_are_shown(a: AppView, i: int)
    requires
        images_known(a),
        0 <= i < a.images.len(),
    ensures
        now_placed(a).len() == a.images.len(),
        now_placed(a)[i] <==> exists|k: int|
            0 <= k < a.image_rows.len() && is_shown(a, k) && #[trigger] a.image_rows[k].0 == i,
{
    crate::placing::drawn_images_are_on_the_screen(a, i);
    assert forall|k: int| 0 <= k < a.image_rows.len() implies #[trigger] is_shown(a, k)
        == crate::placing::is_drawn(a, k) by {}
    if now_placed(a)[i] {
        let k = choose|k: int|
            0 <= k < a.image_rows.len() && crate::placing::is_drawn(a, k)
                && #[trigger] a.image_rows[k].0 == i;
        assert(is_shown(a, k) && a.image_rows[k].0 == i);
    }
    if exists|k: int|
        0 <= k < a.image_rows.len() && is_shown(a, k) && #[trigger] a.image_rows[k].0 == i {
        let k = choose|k: int|
            0 <= k < a.image_rows.len() && is_shown(a, k) && #[trigger] a.image_rows[k].0 == i;
        assert(crate::placing::is_drawn(a, k) && a.image_rows[k].0 == i);
    }
}

/// An image is taken off the screen just where it was drawn before and is not drawn any
/// more.
pub proof fn images_that_are_gone_are_removed(a: AppView, i: int)
    requires
        0 <= i < a.images.len(),
    ensures
        removal(a, 0).len() == 0,
        removal(a, (i + 1) as nat) == if a.image_placed[i] && !now_placed(a)[i] {
            removal(a, i as nat) + deletion(a.images[i].id)
        } else {
            removal(a, i as nat)
        },
{
}

/// An image is encoded before a frame just where the frame needs it and neither the
/// terminal nor the reader has it, with eight pixels for each of its columns, and no
/// fewer than 32.
pub proof fn images_are_encoded_where_they_are_needed(a: AppView, k: int)
    requires
        images_known(a),
        0 <= k < a.image_rows.len(),
    ensures
        missing_pngs(a, 0).len() == 0,
        ({
            let (i, row) = a.image_rows[k];
            let img = a.images[i as int];
            let before = missing_pngs(a, k as nat);
            let now = missing_pngs(a, (k + 1) as nat);
            if meets_the_screen(a, img, row) && !a.image_placed[i as int] && img.png is None {
                &&& now.len() == before.len() + 1
                &&& now.drop_last() == before
                &&& now.last().0 == i
                &&& now.last().1 == larger(32, 8 * img.cw)
            } else {
                now == before
            }
        }),
{
    let (i, row) = a.image_rows[k];
    let img = a.images[i as int];
    assert(on_screen(a, k) == meets_the_screen(a, img, row));
    assert(image_at(a, k) == img);
    let before = missing_pngs(a, k as nat);
    let now = missing_pngs(a, (k + 1) as nat);
    if meets_the_screen(a, img, row) && !a.image_placed[i as int] && img.png is None {
        assert(now.drop_last() =~= before);
    }
}

/// A PNG that was made is kept with its image, and nothing else changes.
pub proof fn pngs_are_kept_with_their_images(
    a: AppView,
    idx: int,
    png: Seq<u8>,
    w: u32,
    h: u32,
    j: int,
)
    requires
        0 <= idx < a.images.len(),
        0 <= j < a.images.len(),
    ensures
        ({
            let b = with_png(a, idx, png, w, h);
            &&& b == (AppView { images: b.images, ..a })
            &&& b.images.len() == a.images.len()
            &&& j != idx ==> b.images[j] == a.images[j]
            &&& b.images[idx] == (ImageView {
                png: Some(png),
                png_dims: Some((w, h)),
                ..a.images[idx]
            })
        }),
{
}

/// The images that were drawn count as drawn, and nothing else changes.
pub proof fn drawn_images_are_remembered(a: AppView, visible: Seq<bool>)
    ensures
        with_drawn(a, visible).image_placed == visible,
        with_drawn(a, visible) == (AppView {
            image_placed: with_drawn(a, visible).image_placed,
            ..a
        }),
{
}

/// An escape stands between its marks, with the payload behind the control part.
pub proof fn escapes_are_framed(control: Seq<char>, payload: Seq<char>)
    ensures
        escape(control, payload) == seq![0x1bu8, 0x5fu8, 0x47u8] + encode_utf8(control)
            + seq![0x3bu8] + encode_utf8(payload) + seq![0x1bu8, 0x5cu8],
{
}

/// A placement moves the cursor to its row and column, and names the image, its size in
/// cells, and, where only a part is shown, the corner and the size of that part.
pub proof fn placements_name_their_place(
    id: u32,
    row: u16,
    col: u16,
    cw: u16,
    ch: u16,
    src: Option<(u32, u32, u32, u32)>,
)
    ensures
        ({
            let part = match src {
                Some((x0, y0, x1, y1)) => ",x="@ + decimal(x0 as nat) + ",y="@ + decimal(
                    y0 as nat,
                ) + ",w="@ + decimal((x1 - x0) as nat) + ",h="@ + decimal((y1 - y0) as nat),
                None => Seq::empty(),
            };
            let control = "a=p,i="@ + decimal(id as nat) + ",p="@ + decimal(id as nat) + ",c="@
                + decimal(cw as nat) + ",r="@ + decimal(ch as nat) + ",q=2,C=1"@ + part;
            placement(id, row, col, cw, ch, src) == encode_utf8(
                "\x1b["@ + decimal(row as nat) + ";"@ + decimal(col as nat) + "H"@,
            ) + escape(control, Seq::empty())
        }),
{
}

/// A removal names the image.
pub proof fn deletions_name_their_image(id: u32)
    ensures
        deletion(id) == escape("a=d,d=i,i="@ + decimal(id as nat) + ",q=2"@, Seq::empty()),
{
}

/// An image is sent in pieces that, put together, are its text, in order. The first one
/// names the image, and every one tells whether more follow.
pub proof fn transmissions_tell_what_follows(id: u32, payload: Seq<char>, k: nat)
    requires
        k < chunk_count(payload.len()),
    ensures
        transmission(id, payload, 0).len() == 0,
        ({
            let from = (k * 4096) as int;
            let to = smaller(from + 4096, payload.len() as int);
            let more = if to < payload.len() {
                "1"@
            } else {
                "0"@
            };
            let control = if k == 0 {
                "a=t,f=100,i="@ + decimal(id as nat) + ",q=2,m="@ + more
            } else {
                "m="@ + more
            };
            &&& 0 <= from <= to <= payload.len()
            &&& transmission(id, payload, k + 1) == transmission(id, payload, k) + escape(
                control,
                payload.subrange(from, to),
            )
            &&& to == payload.len() <==> k + 1 == chunk_count(payload.len())
        }),
{
    let n = payload.len();
    let count = chunk_count(n);
    assert(k * 4096 <= n) by (nonlinear_arith)
        requires
            k < count,
            n == 0 ==> count == 1,
            n > 0 ==> count == (n + 4095) / 4096,
    ;
    assert((k + 1) * 4096 == k * 4096 + 4096) by (nonlinear_arith);
    assert(k + 1 == count <==> (k + 1) * 4096 >= n) by (nonlinear_arith)
        requires
            k < count,
            n == 0 ==> count == 1,
            n > 0 ==> count == (n + 4095) / 4096,
    ;
}

} // verus!
