//! Which images are on the screen, and what draws them.

use crate::app::{app_ok, images_known, none_placed, pngs_fit, unplaced, App, AppView};
use crate::images::ImageView;
use crate::kitty::{
    base64_len, base64_text, chunk_count, delete_image, deletion, place_image, placement,
    push_bytes, transmission, transmit_image,
};
use vstd::arithmetic::div_mod::{lemma_div_is_ordered, lemma_div_multiples_vanish};
use vstd::arithmetic::mul::{lemma_mul_inequality, lemma_mul_is_commutative};
use vstd::prelude::*;

verus! {

/// The lower 16 bits of a number.
pub open spec fn low16(n: nat) -> u16 {
    (n % 0x10000) as u16
}

/// The display lines of an image that are on the screen: the first one, and the
/// one behind the last. The image starts at the line `row`.
pub open spec fn visible_rows(a: AppView, img: ImageView, row: nat) -> Option<(nat, nat)> {
    if img.cw == 0 || img.ch == 0 {
        None
    } else {
        let lo = if row > a.offset {
            row
        } else {
            a.offset as nat
        };
        let bottom = (a.offset + a.viewport) as nat;
        let hi = if row + img.ch < bottom {
            row + img.ch as nat
        } else {
            bottom
        };
        if lo < hi {
            Some((lo, hi))
        } else {
            None
        }
    }
}

/// The part of an image that the lines from `lo` up to `hi` show, in pixels of
/// its PNG; none where it is the whole image.
pub open spec fn source_rect(img: ImageView, row: nat, lo: nat, hi: nat) -> Option<
    (u32, u32, u32, u32),
> {
    match img.png_dims {
        Some((w, h)) => if h > 0 && (lo != row || hi != row + img.ch) {
            Some(
                (
                    0,
                    (h as nat * (lo - row) as nat / img.ch as nat) as u32,
                    w,
                    (h as nat * (hi - row) as nat / img.ch as nat) as u32,
                ),
            )
        } else {
            None
        },
        None => None,
    }
}

/// The screen column at which an image starts: it is centred.
pub open spec fn screen_col(a: AppView, img: ImageView) -> nat {
    let room = if a.content_w > img.cw {
        (a.content_w - img.cw) as nat
    } else {
        0
    };
    a.content_x as nat + 1 + room / 2
}

/// The image of the row `k`.
pub open spec fn image_at(a: AppView, k: int) -> ImageView {
    a.images[a.image_rows[k].0 as int]
}

/// Whether the image of the row `k` is on the screen.
pub open spec fn on_screen(a: AppView, k: int) -> bool {
    visible_rows(a, image_at(a, k), a.image_rows[k].1) is Some
}

/// Whether the image of the row `k` was drawn in the last frame.
pub open spec fn was_placed(a: AppView, k: int) -> bool {
    a.image_placed[a.image_rows[k].0 as int]
}

/// Whether the image of the row `k` is drawn now: it is on the screen, and the
/// terminal has it, or its PNG is at hand.
pub open spec fn is_drawn(a: AppView, k: int) -> bool {
    on_screen(a, k) && (was_placed(a, k) || image_at(a, k).png is Some)
}

/// The bytes that hand a PNG to the terminal.
pub open spec fn png_transmission(id: u32, png: Seq<u8>) -> Seq<u8> {
    transmission(id, base64_text(png), chunk_count(base64_text(png).len()))
}

/// The bytes that draw the image of the row `k`.
pub open spec fn row_bytes(a: AppView, k: int) -> Seq<u8> {
    let img = image_at(a, k);
    let row = a.image_rows[k].1;
    let (lo, hi) = visible_rows(a, img, row)->0;
    let sent = if was_placed(a, k) {
        Seq::empty()
    } else {
        png_transmission(img.id, img.png->0)
    };
    sent + placement(
        img.id,
        low16((a.content_y + (lo - a.offset) + 1) as nat),
        low16(screen_col(a, img)),
        img.cw,
        (hi - lo) as u16,
        source_rect(img, row, lo, hi),
    )
}

/// The bytes that draw the images of the first `n` rows.
pub open spec fn drawing(a: AppView, n: nat) -> Seq<u8>
    decreases n,
{
    if n == 0 {
        Seq::empty()
    } else if is_drawn(a, n - 1) {
        drawing(a, (n - 1) as nat) + row_bytes(a, n - 1)
    } else {
        drawing(a, (n - 1) as nat)
    }
}

/// Which images the first `n` rows draw.
pub open spec fn drawn_images(a: AppView, n: nat) -> Seq<bool>
    decreases n,
{
    if n == 0 {
        none_placed(a.images.len())
    } else if is_drawn(a, n - 1) {
        drawn_images(a, (n - 1) as nat).update(a.image_rows[n - 1].0 as int, true)
    } else {
        drawn_images(a, (n - 1) as nat)
    }
}

/// Which images are drawn in this frame.
pub open spec fn now_placed(a: AppView) -> Seq<bool> {
    drawn_images(a, a.image_rows.len())
}

/// The bytes that remove, out of the first `n` images, those that were drawn in
/// the last frame and are not drawn now.
pub open spec fn removal(a: AppView, n: nat) -> Seq<u8>
    decreases n,
{
    if n == 0 {
        Seq::empty()
    } else if a.image_placed[n - 1] && !now_placed(a)[n - 1] {
        removal(a, (n - 1) as nat) + deletion(a.images[n - 1].id)
    } else {
        removal(a, (n - 1) as nat)
    }
}

/// The longest side of an image in pixels that is worth sending: eight for each
/// of its columns.
pub open spec fn pixel_limit(cw: u16) -> u32 {
    if cw < 4 {
        32
    } else {
        (cw * 8) as u32
    }
}

/// Whether the image of the row `k` has to be encoded before it can be drawn.
pub open spec fn needs_png(a: AppView, k: int) -> bool {
    on_screen(a, k) && !was_placed(a, k) && image_at(a, k).png is None
}

/// The images of the first `n` rows that have to be encoded, each with the longest
/// side that is worth sending.
pub open spec fn missing_pngs(a: AppView, n: nat) -> Seq<(nat, u32)>
    decreases n,
{
    if n == 0 {
        Seq::empty()
    } else if needs_png(a, n - 1) {
        missing_pngs(a, (n - 1) as nat).push(
            (a.image_rows[n - 1].0, pixel_limit(image_at(a, n - 1).cw)),
        )
    } else {
        missing_pngs(a, (n - 1) as nat)
    }
}

/// Images by their positions, as natural numbers.
pub open spec fn image_limits(v: Seq<(usize, u32)>) -> Seq<(nat, u32)> {
    Seq::new(v.len(), |i: int| (v[i].0 as nat, v[i].1))
}

/// The display lines of an image that are on the screen.
fn visible_part(app: &App, idx: usize, row: usize) -> (r: Option<(u128, u128)>)
    requires
        idx < app.images@.len(),
    ensures
        match r {
            Some((lo, hi)) => visible_rows(
                app.deep_view(),
                app.images@[idx as int].deep_view(),
                row as nat,
            ) == Some((lo as nat, hi as nat)),
            None => visible_rows(
                app.deep_view(),
                app.images@[idx as int].deep_view(),
                row as nat,
            ) is None,
        },
{
    let img = &app.images[idx];
    if img.cw == 0 || img.ch == 0 {
        return None;
    }
    let lo = if row > app.offset {
        row as u128
    } else {
        app.offset as u128
    };
    let bottom = app.offset as u128 + app.viewport as u128;
    let end = row as u128 + img.ch as u128;
    let hi = if end < bottom {
        end
    } else {
        bottom
    };
    if lo < hi {
        Some((lo, hi))
    } else {
        None
    }
}

/// The images that have to be encoded before this frame can be drawn, each with
/// the longest side that is worth sending.
pub fn images_to_encode(app: &App) -> (r: Vec<(usize, u32)>)
    requires
        images_known(app.deep_view()),
    ensures
        image_limits(r@) == missing_pngs(app.deep_view(), app.image_rows@.len()),
{
    let ghost a = app.deep_view();
    let mut out: Vec<(usize, u32)> = Vec::new();
    let mut k: usize = 0;
    assert(image_limits(out@) =~= missing_pngs(a, 0));
    while k < app.image_rows.len()
        invariant
            k <= app.image_rows@.len(),
            a == app.deep_view(),
            images_known(a),
            image_limits(out@) == missing_pngs(a, k as nat),
        decreases app.image_rows@.len() - k,
    {
        let (idx, row) = app.image_rows[k];
        assert(a.image_rows[k as int] == (idx as nat, row as nat));
        assert(a.images[idx as int] == app.images@[idx as int].deep_view());
        let img = &app.images[idx];
        if visible_part(app, idx, row).is_some() && !app.image_placed[idx] && img.png.is_none() {
            let ghost before = image_limits(out@);
            let limit = if img.cw < 4 {
                32u32
            } else {
                img.cw as u32 * 8
            };
            out.push((idx, limit));
            assert(image_limits(out@) =~= before.push((idx as nat, limit)));
        }
        k += 1;
    }
    out
}

/// The reader with the PNG of an image at hand.
pub open spec fn with_png(a: AppView, idx: int, png: Seq<u8>, w: u32, h: u32) -> AppView {
    let img = ImageView { png: Some(png), png_dims: Some((w, h)), ..a.images[idx] };
    AppView { images: a.images.update(idx, img), ..a }
}

/// Keeps the PNG of an image, and its size in pixels.
pub fn set_png(app: &mut App, idx: usize, png: Vec<u8>, w: u32, h: u32)
    requires
        idx < old(app).images@.len(),
        base64_len(png@.len()) <= isize::MAX,
    ensures
        final(app).deep_view() == with_png(old(app).deep_view(), idx as int, png@, w, h),
        app_ok(old(app).deep_view()) ==> app_ok(final(app).deep_view()),
{
    let ghost a = app.deep_view();
    assert(a.images[idx as int] == app.images@[idx as int].deep_view());
    app.images[idx].png = Some(png);
    app.images[idx].png_dims = Some((w, h));
    assert(app.images.deep_view() =~= with_png(a, idx as int, png@, w, h).images);
}

proof fn lemma_slice(h: nat, top: nat, bottom: nat, ch: nat)
    requires
        top <= bottom <= ch,
        0 < ch,
    ensures
        h * top / ch <= h * bottom / ch <= h,
{
    lemma_mul_inequality(top as int, bottom as int, h as int);
    lemma_mul_is_commutative(h as int, top as int);
    lemma_mul_is_commutative(h as int, bottom as int);
    lemma_div_is_ordered((h * top) as int, (h * bottom) as int, ch as int);
    lemma_mul_inequality(bottom as int, ch as int, h as int);
    lemma_mul_is_commutative(h as int, ch as int);
    lemma_div_is_ordered((h * bottom) as int, (h * ch) as int, ch as int);
    lemma_div_multiples_vanish(h as int, ch as int);
}

/// The pixel row of a PNG of the height `h` at which the line `n` of `ch` starts.
fn pixel_row(h: u32, n: u16, ch: u16) -> (r: u32)
    requires
        0 < ch,
        n <= ch,
    ensures
        r as nat == h as nat * n as nat / ch as nat,
        r <= h,
{
    proof {
        lemma_slice(h as nat, n as nat, n as nat, ch as nat);
        assert(h as nat * n as nat <= u32::MAX as nat * u16::MAX as nat) by (nonlinear_arith)
            requires
                h <= u32::MAX,
                n <= u16::MAX,
        ;
    }
    (h as u64 * n as u64 / ch as u64) as u32
}

/// Appends the bytes that draw the image of the row `k`.
fn draw_row(app: &App, k: usize, lo: u128, hi: u128, out: &mut Vec<u8>)
    requires
        images_known(app.deep_view()),
        pngs_fit(app.deep_view().images),
        k < app.image_rows@.len(),
        is_drawn(app.deep_view(), k as int),
        visible_rows(
            app.deep_view(),
            image_at(app.deep_view(), k as int),
            app.deep_view().image_rows[k as int].1,
        ) == Some((lo as nat, hi as nat)),
    ensures
        final(out)@ == old(out)@ + row_bytes(app.deep_view(), k as int),
{
    let ghost a = app.deep_view();
    let (idx, start) = app.image_rows[k];
    assert(a.image_rows[k as int] == (idx as nat, start as nat));
    assert(a.images[idx as int] == app.images@[idx as int].deep_view());
    let img = &app.images[idx];
    let row = start as u128;
    if !app.image_placed[idx] {
        if let Some(png) = &img.png {
            let bytes = transmit_image(img.id, png.as_slice());
            push_bytes(out, bytes.as_slice());
        }
    }
    let ghost sent = out@;
    let src = match img.png_dims {
        Some((w, h)) => if h > 0 && (lo != row || hi != row + img.ch as u128) {
            let y0 = pixel_row(h, (lo - row) as u16, img.ch);
            let y1 = pixel_row(h, (hi - row) as u16, img.ch);
            proof {
                lemma_slice(h as nat, (lo - row) as nat, (hi - row) as nat, img.ch as nat);
            }
            Some((0u32, y0, w, y1))
        } else {
            None
        },
        None => None,
    };
    let room = if app.content_w > img.cw {
        (app.content_w - img.cw) as u32
    } else {
        0
    };
    let col = app.content_x as u32 + 1 + room / 2;
    let line = app.content_y as u128 + (lo - app.offset as u128) + 1;
    let bytes = place_image(
        img.id,
        (line % 0x10000) as u16,
        (col % 0x10000) as u16,
        img.cw,
        (hi - lo) as u16,
        src,
    );
    push_bytes(out, bytes.as_slice());
    assert(out@ =~= old(out)@ + row_bytes(a, k as int));
}

/// The bytes that draw this frame's images and remove those that are gone, and
/// which images are drawn.
pub fn place_images(app: &App) -> (r: (Vec<u8>, Vec<bool>))
    requires
        images_known(app.deep_view()),
        pngs_fit(app.deep_view().images),
    ensures
        r.0@ == drawing(app.deep_view(), app.image_rows@.len()) + removal(
            app.deep_view(),
            app.images@.len(),
        ),
        r.1@ == now_placed(app.deep_view()),
{
    let ghost a = app.deep_view();
    let mut out: Vec<u8> = Vec::new();
    let mut visible = unplaced(app.images.len());
    assert(a.images.len() == app.images@.len());
    assert(a.image_rows.len() == app.image_rows@.len());
    let mut k: usize = 0;
    while k < app.image_rows.len()
        invariant
            k <= app.image_rows@.len(),
            a == app.deep_view(),
            images_known(a),
            pngs_fit(a.images),
            a.images.len() == app.images@.len(),
            visible@.len() == a.images.len(),
            out@ == drawing(a, k as nat),
            visible@ == drawn_images(a, k as nat),
        decreases app.image_rows@.len() - k,
    {
        let (idx, row) = app.image_rows[k];
        assert(a.image_rows[k as int] == (idx as nat, row as nat));
        assert(a.images[idx as int] == app.images@[idx as int].deep_view());
        match visible_part(app, idx, row) {
            Some((lo, hi)) => {
                if app.image_placed[idx] || app.images[idx].png.is_some() {
                    draw_row(app, k, lo, hi, &mut out);
                    visible.set(idx, true);
                }
            },
            None => {},
        }
        k += 1;
    }
    let ghost drawn = out@;
    let mut j: usize = 0;
    assert(out@ =~= drawn + removal(a, 0));
    while j < app.images.len()
        invariant
            j <= app.images@.len(),
            a == app.deep_view(),
            images_known(a),
            a.images.len() == app.images@.len(),
            visible@.len() == a.images.len(),
            visible@ == now_placed(a),
            out@ == drawn + removal(a, j as nat),
        decreases app.images@.len() - j,
    {
        if app.image_placed[j] && !visible[j] {
            assert(a.images[j as int] == app.images@[j as int].deep_view());
            let bytes = delete_image(app.images[j].id);
            let ghost before = out@;
            push_bytes(&mut out, bytes.as_slice());
            assert(out@ =~= drawn + removal(a, (j + 1) as nat));
        }
        j += 1;
    }
    (out, visible)
}

/// The reader after some of its images were drawn.
pub open spec fn with_drawn(a: AppView, visible: Seq<bool>) -> AppView {
    AppView { image_placed: visible, ..a }
}

/// Remembers which images were drawn.
pub fn images_drawn(app: &mut App, visible: Vec<bool>)
    ensures
        final(app).deep_view() == with_drawn(old(app).deep_view(), visible@),
        app_ok(old(app).deep_view()) && visible@.len() == old(app).images@.len() ==> app_ok(
            final(app).deep_view(),
        ),
{
    app.image_placed = visible;
}

proof fn lemma_drawn_images(a: AppView, n: nat)
    requires
        images_known(a),
        n <= a.image_rows.len(),
    ensures
        drawn_images(a, n).len() == a.images.len(),
        forall|i: int|
            #![trigger drawn_images(a, n)[i]]
            0 <= i < a.images.len() ==> (drawn_images(a, n)[i] <==> exists|k: int|
                0 <= k < n && is_drawn(a, k) && #[trigger] a.image_rows[k].0 == i),
    decreases n,
{
    if n > 0 {
        let m = (n - 1) as nat;
        lemma_drawn_images(a, m);
        let before = drawn_images(a, m);
        let now = drawn_images(a, n);
        let at = a.image_rows[n - 1].0 as int;
        assert forall|i: int| #![trigger now[i]] 0 <= i < a.images.len() implies (now[i]
            <==> exists|k: int|
            0 <= k < n && is_drawn(a, k) && #[trigger] a.image_rows[k].0 == i) by {
            assert(before[i] <==> exists|k: int|
                0 <= k < m && is_drawn(a, k) && #[trigger] a.image_rows[k].0 == i);
            if now[i] {
                if before[i] {
                    let k = choose|k: int|
                        0 <= k < m && is_drawn(a, k) && #[trigger] a.image_rows[k].0 == i;
                    assert(a.image_rows[k].0 == i);
                } else {
                    assert(i == at && is_drawn(a, n - 1));
                    assert(a.image_rows[n - 1].0 == i);
                }
            } else {
                assert(!before[i]);
            }
        }
    }
}

/// The images that count as drawn after a frame are exactly those that have a row
/// on the screen and that the terminal has.
pub proof fn drawn_images_are_on_the_screen(a: AppView, i: int)
    requires
        images_known(a),
        0 <= i < a.images.len(),
    ensures
        now_placed(a).len() == a.images.len(),
        now_placed(a)[i] <==> exists|k: int|
            0 <= k < a.image_rows.len() && is_drawn(a, k) && #[trigger] a.image_rows[k].0 == i,
{
    lemma_drawn_images(a, a.image_rows.len());
    assert(now_placed(a)[i] == drawn_images(a, a.image_rows.len())[i]);
}

/// What is drawn of an image lies inside the text area, and is a part of its
/// pixels.
pub proof fn images_stay_in_the_text_area(a: AppView, img: ImageView, row: nat, lo: nat, hi: nat)
    requires
        visible_rows(a, img, row) == Some((lo, hi)),
    ensures
        a.offset <= lo < hi <= a.offset + a.viewport,
        row <= lo,
        hi <= row + img.ch,
        match (source_rect(img, row, lo, hi), img.png_dims) {
            (Some((x0, y0, x1, y1)), Some((w, h))) => x0 == 0 && x1 == w && y0 <= y1 <= h,
            (Some(_), None) => false,
            _ => true,
        },
{
    if let Some((w, h)) = img.png_dims {
        lemma_slice(h as nat, (lo - row) as nat, (hi - row) as nat, img.ch as nat);
    }
}

/// Drawing the same frame again removes nothing and draws the same images, and
/// sends none of them anew.
pub proof fn drawing_again_changes_nothing(a: AppView)
    requires
        images_known(a),
    ensures
        ({
            let b = AppView { image_placed: now_placed(a), ..a };
            &&& now_placed(b) == now_placed(a)
            &&& removal(b, b.images.len()) == Seq::<u8>::empty()
            &&& forall|k: int|
                0 <= k < b.image_rows.len() && #[trigger] is_drawn(b, k) ==> was_placed(b, k)
        }),
{
    let b = AppView { image_placed: now_placed(a), ..a };
    lemma_drawn_images(a, a.image_rows.len());
    lemma_drawn_images(b, b.image_rows.len());
    let n = a.image_rows.len();
    assert(now_placed(a) == drawn_images(a, n));
    assert(now_placed(b) == drawn_images(b, n));
    assert forall|k: int| 0 <= k < n implies #[trigger] is_drawn(b, k) == is_drawn(a, k) && (
    is_drawn(b, k) ==> was_placed(b, k)) by {
        let i = a.image_rows[k].0 as int;
        assert(on_screen(b, k) == on_screen(a, k));
        assert(now_placed(a)[i] == drawn_images(a, n)[i]);
        if is_drawn(a, k) {
            assert(a.image_rows[k].0 == i);
        }
        if drawn_images(a, n)[i] {
            let l = choose|l: int|
                0 <= l < n && is_drawn(a, l) && #[trigger] a.image_rows[l].0 == i;
            assert(image_at(a, l) == image_at(a, k));
            assert(was_placed(a, l) == was_placed(a, k));
        }
    }
    assert forall|i: int| 0 <= i < a.images.len() implies now_placed(b)[i] == now_placed(a)[i] by {
        assert(drawn_images(a, n)[i] == drawn_images(b, n)[i]) by {
            if drawn_images(a, n)[i] {
                let l = choose|l: int|
                    0 <= l < n && is_drawn(a, l) && #[trigger] a.image_rows[l].0 == i;
                assert(is_drawn(b, l) && b.image_rows[l].0 == i);
            }
            if drawn_images(b, n)[i] {
                let l = choose|l: int|
                    0 <= l < n && is_drawn(b, l) && #[trigger] b.image_rows[l].0 == i;
                assert(is_drawn(a, l) && a.image_rows[l].0 == i);
            }
        }
    }
    assert(now_placed(b) =~= now_placed(a));
    lemma_no_removal(b, b.images.len());
}

/// An image whose PNG is at hand is not encoded again.
pub proof fn pngs_are_encoded_once(a: AppView, idx: int, png: Seq<u8>, w: u32, h: u32)
    requires
        images_known(a),
        0 <= idx < a.images.len(),
    ensures
        forall|i: int|
            0 <= i < missing_pngs(with_png(a, idx, png, w, h), a.image_rows.len()).len() ==> (
            #[trigger] missing_pngs(with_png(a, idx, png, w, h), a.image_rows.len())[i]).0 != idx,
{
    lemma_encoded_once(a, idx, png, w, h, a.image_rows.len());
}

proof fn lemma_encoded_once(a: AppView, idx: int, png: Seq<u8>, w: u32, h: u32, n: nat)
    requires
        images_known(a),
        0 <= idx < a.images.len(),
        n <= a.image_rows.len(),
    ensures
        forall|i: int|
            0 <= i < missing_pngs(with_png(a, idx, png, w, h), n).len() ==> (
            #[trigger] missing_pngs(with_png(a, idx, png, w, h), n)[i]).0 != idx,
    decreases n,
{
    if n > 0 {
        lemma_encoded_once(a, idx, png, w, h, (n - 1) as nat);
        let b = with_png(a, idx, png, w, h);
        let before = missing_pngs(b, (n - 1) as nat);
        let now = missing_pngs(b, n);
        assert(a.image_rows[n - 1].0 == idx ==> image_at(b, n - 1).png is Some);
        assert forall|i: int| 0 <= i < now.len() implies (#[trigger] now[i]).0 != idx by {
            if i < before.len() {
                assert(now[i] == before[i]);
            }
        }
    }
}

/// After a resize every image that is drawn is sent to the terminal anew.
pub proof fn resized_screens_get_their_images_anew(a: AppView, k: int)
    requires
        images_known(a),
        0 <= k < a.image_rows.len(),
    ensures
        ({
            let b = AppView { image_placed: none_placed(a.image_placed.len()), ..a };
            let img = image_at(b, k);
            is_drawn(b, k) ==> img.png is Some && row_bytes(b, k).take(
                png_transmission(img.id, img.png->0).len() as int,
            ) == png_transmission(img.id, img.png->0)
        }),
{
    let b = AppView { image_placed: none_placed(a.image_placed.len()), ..a };
    let img = image_at(b, k);
    assert(a.image_rows[k].0 < a.images.len());
    if is_drawn(b, k) {
        let sent = png_transmission(img.id, img.png->0);
        assert(row_bytes(b, k).take(sent.len() as int) =~= sent);
    }
}

proof fn lemma_no_removal(a: AppView, n: nat)
    requires
        n <= a.images.len(),
        now_placed(a) == a.image_placed,
    ensures
        removal(a, n) == Seq::<u8>::empty(),
    decreases n,
{
    if n > 0 {
        lemma_no_removal(a, (n - 1) as nat);
    }
}

} // verus!
