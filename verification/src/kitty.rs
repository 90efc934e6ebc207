//! The escape sequences of the kitty graphics protocol.

use crate::text::{decimal, push_decimal};
use base64::{engine::general_purpose::STANDARD, Engine as _};
use vstd::prelude::*;
use vstd::string::*;
use vstd::utf8::{encode_utf8, is_ascii_chars};

verus! {

/// The most characters of payload that one escape carries.
pub const KITTY_CHUNK: usize = 4096;

/// One escape of the protocol: `ESC _ G control ; payload ESC \`.
pub open spec fn escape(control: Seq<char>, payload: Seq<char>) -> Seq<u8> {
    seq![0x1bu8, 0x5fu8, 0x47u8] + encode_utf8(control) + seq![0x3bu8] + encode_utf8(payload)
        + seq![0x1bu8, 0x5cu8]
}

/// The base64 text of some bytes, as the standard engine of the crate `base64`
/// encodes them: its usual alphabet, with padding.
pub uninterp spec fn base64_text(bytes: Seq<u8>) -> Seq<char>;

/// The length of the base64 text of `n` bytes: four characters for every three
/// bytes begun.
pub open spec fn base64_len(n: nat) -> nat {
    (n + 2) / 3 * 4
}

/// `Engine::encode` of the standard engine. The result depends on the bytes
/// alone, is ASCII, and has four characters for every three bytes begun.
#[verifier::external_body]
fn base64_encode(bytes: &[u8]) -> (r: String)
    requires
        base64_len(bytes@.len()) <= isize::MAX,
    ensures
        r@ == base64_text(bytes@),
        r@.len() == base64_len(bytes@.len()),
        is_ascii_chars(r@),
{
    STANDARD.encode(bytes)
}

/// Whether the base64 text of a PNG can be held in memory.
pub fn can_transmit(png: &Vec<u8>) -> (r: bool)
    ensures
        r == (base64_len(png@.len()) <= isize::MAX),
{
    let n = png.len() as u128;
    (n + 2) / 3 * 4 <= isize::MAX as u128
}

/// Into how many escapes a payload of `len` characters is cut.
pub open spec fn chunk_count(len: nat) -> nat {
    if len == 0 {
        1
    } else {
        (len + KITTY_CHUNK as nat - 1) as nat / KITTY_CHUNK as nat
    }
}

/// Where the chunk `k` ends.
pub open spec fn chunk_end(len: nat, k: nat) -> nat {
    if (k + 1) * KITTY_CHUNK as nat <= len {
        (k + 1) * KITTY_CHUNK as nat
    } else {
        len
    }
}

/// The chunk `k` of a payload.
pub open spec fn chunk(payload: Seq<char>, k: nat) -> Seq<char> {
    payload.subrange(
        (k * KITTY_CHUNK as nat) as int,
        chunk_end(payload.len(), k) as int,
    )
}

/// The control part of the escape of the chunk `k` out of `count`: the first
/// names the image, and every one tells whether more follow.
pub open spec fn transmit_control(id: u32, k: nat, count: nat) -> Seq<char> {
    let more = if k + 1 == count {
        "0"@
    } else {
        "1"@
    };
    if k == 0 {
        "a=t,f=100,i="@ + decimal(id as nat) + ",q=2,m="@ + more
    } else {
        "m="@ + more
    }
}

/// The escapes of the first `n` chunks of a payload.
pub open spec fn transmission(id: u32, payload: Seq<char>, n: nat) -> Seq<u8>
    decreases n,
{
    if n == 0 {
        Seq::empty()
    } else {
        let k = (n - 1) as nat;
        transmission(id, payload, k) + escape(
            transmit_control(id, k, chunk_count(payload.len())),
            chunk(payload, k),
        )
    }
}

/// The payloads of the first `n` chunks, one after the other.
pub open spec fn joined_chunks(payload: Seq<char>, n: nat) -> Seq<char>
    decreases n,
{
    if n == 0 {
        Seq::empty()
    } else {
        joined_chunks(payload, (n - 1) as nat) + chunk(payload, (n - 1) as nat)
    }
}

/// The part of a placement that shows only a rectangle of the image.
pub open spec fn source_control(src: Option<(u32, u32, u32, u32)>) -> Seq<char> {
    match src {
        Some((x0, y0, x1, y1)) => ",x="@ + decimal(x0 as nat) + ",y="@ + decimal(y0 as nat)
            + ",w="@ + decimal((x1 - x0) as nat) + ",h="@ + decimal((y1 - y0) as nat),
        None => Seq::empty(),
    }
}

/// The control part of a placement.
pub open spec fn place_control(
    id: u32,
    cw: u16,
    ch: u16,
    src: Option<(u32, u32, u32, u32)>,
) -> Seq<char> {
    "a=p,i="@ + decimal(id as nat) + ",p="@ + decimal(id as nat) + ",c="@ + decimal(cw as nat)
        + ",r="@ + decimal(ch as nat) + ",q=2,C=1"@ + source_control(src)
}

/// The escape that moves the cursor to a row and a column, counted from one.
pub open spec fn cursor_text(row: u16, col: u16) -> Seq<char> {
    "\x1b["@ + decimal(row as nat) + ";"@ + decimal(col as nat) + "H"@
}

/// The bytes that place an image.
pub open spec fn placement(
    id: u32,
    row: u16,
    col: u16,
    cw: u16,
    ch: u16,
    src: Option<(u32, u32, u32, u32)>,
) -> Seq<u8> {
    encode_utf8(cursor_text(row, col)) + escape(place_control(id, cw, ch, src), Seq::empty())
}

/// The bytes that take an image off the screen.
pub open spec fn deletion(id: u32) -> Seq<u8> {
    escape("a=d,d=i,i="@ + decimal(id as nat) + ",q=2"@, Seq::empty())
}

/// Appends some bytes.
pub(crate) fn push_bytes(out: &mut Vec<u8>, bytes: &[u8])
    ensures
        final(out)@ == old(out)@ + bytes@,
{
    out.extend_from_slice(bytes);
    assert(out@ =~= old(out)@ + bytes@);
}

/// Builds one escape: `ESC _ G control ; payload ESC \`.
pub fn kitty_esc(control: &str, payload: &str) -> (r: Vec<u8>)
    ensures
        r@ == escape(control@, payload@),
{
    let mut v: Vec<u8> = Vec::new();
    v.push(0x1b);
    v.push(0x5f);
    v.push(0x47);
    push_bytes(&mut v, control.as_bytes());
    v.push(0x3b);
    push_bytes(&mut v, payload.as_bytes());
    v.push(0x1b);
    v.push(0x5c);
    assert(v@ =~= escape(control@, payload@));
    v
}

/// Transmits a payload as the image `id`, in pieces of at most `KITTY_CHUNK`
/// characters.
pub fn transmit_payload(id: u32, payload: &str) -> (r: Vec<u8>)
    requires
        is_ascii_chars(payload@),
    ensures
        r@ == transmission(id, payload@, chunk_count(payload@.len())),
{
    proof {
        vstd::utf8::is_ascii_chars_encode_utf8(payload@);
    }
    let len = payload.as_bytes().len();
    let ghost count = chunk_count(payload@.len());
    let mut out: Vec<u8> = Vec::new();
    let mut start: usize = 0;
    let ghost mut k: nat = 0;
    loop
        invariant_except_break
            k < count,
            start == k * KITTY_CHUNK,
            start <= len,
            out@ == transmission(id, payload@, k),
        invariant
            is_ascii_chars(payload@),
            len == payload@.len(),
            count == chunk_count(payload@.len()),
        ensures
            out@ == transmission(id, payload@, count),
        decreases len - start,
    {
        let end = if len - start <= KITTY_CHUNK {
            len
        } else {
            start + KITTY_CHUNK
        };
        let last = end == len;
        let mut control = String::new();
        if start == 0 {
            control.append("a=t,f=100,i=");
            push_decimal(&mut control, id as u64);
            control.append(",q=2,m=");
        } else {
            control.append("m=");
        }
        if last {
            control.append("0");
        } else {
            control.append("1");
        }
        let piece = payload.substring_ascii(start, end);
        assert(control@ =~= transmit_control(id, k, count));
        let esc = kitty_esc(control.as_str(), piece);
        push_bytes(&mut out, esc.as_slice());
        proof {
            k = k + 1;
        }
        if last {
            break;
        }
        start = end;
    }
    out
}

/// Transmits PNG data as the image `id`, in base64 pieces of at most
/// `KITTY_CHUNK` characters.
pub fn transmit_image(id: u32, png: &[u8]) -> (r: Vec<u8>)
    requires
        base64_len(png@.len()) <= isize::MAX,
    ensures
        r@ == transmission(
            id,
            base64_text(png@),
            chunk_count(base64_text(png@).len()),
        ),
        base64_text(png@).len() == base64_len(png@.len()),
{
    let b64 = base64_encode(png);
    transmit_payload(id, b64.as_str())
}

/// Places a transmitted image at a cell, `cw` by `ch` cells large. `src` is the
/// rectangle of the image, in pixels, that is shown when the image lies partly
/// outside of the view.
pub fn place_image(
    id: u32,
    row: u16,
    col: u16,
    cw: u16,
    ch: u16,
    src: Option<(u32, u32, u32, u32)>,
) -> (r: Vec<u8>)
    requires
        src matches Some((x0, y0, x1, y1)) ==> x0 <= x1 && y0 <= y1,
    ensures
        r@ == placement(id, row, col, cw, ch, src),
{
    let mut cursor = String::new();
    cursor.append("\x1b[");
    push_decimal(&mut cursor, row as u64);
    cursor.append(";");
    push_decimal(&mut cursor, col as u64);
    cursor.append("H");
    assert(cursor@ =~= cursor_text(row, col));
    let mut control = String::new();
    control.append("a=p,i=");
    push_decimal(&mut control, id as u64);
    control.append(",p=");
    push_decimal(&mut control, id as u64);
    control.append(",c=");
    push_decimal(&mut control, cw as u64);
    control.append(",r=");
    push_decimal(&mut control, ch as u64);
    control.append(",q=2,C=1");
    if let Some((x0, y0, x1, y1)) = src {
        control.append(",x=");
        push_decimal(&mut control, x0 as u64);
        control.append(",y=");
        push_decimal(&mut control, y0 as u64);
        control.append(",w=");
        push_decimal(&mut control, (x1 - x0) as u64);
        control.append(",h=");
        push_decimal(&mut control, (y1 - y0) as u64);
    }
    assert(control@ =~= place_control(id, cw, ch, src));
    let mut out: Vec<u8> = Vec::new();
    push_bytes(&mut out, cursor.as_str().as_bytes());
    let empty = String::new();
    let esc = kitty_esc(control.as_str(), empty.as_str());
    push_bytes(&mut out, esc.as_slice());
    assert(out@ =~= placement(id, row, col, cw, ch, src));
    out
}

/// Takes an image off the screen; its data stays with the terminal.
pub fn delete_image(id: u32) -> (r: Vec<u8>)
    ensures
        r@ == deletion(id),
{
    let mut control = String::new();
    control.append("a=d,d=i,i=");
    push_decimal(&mut control, id as u64);
    control.append(",q=2");
    assert(control@ =~= "a=d,d=i,i="@ + decimal(id as nat) + ",q=2"@);
    let empty = String::new();
    kitty_esc(control.as_str(), empty.as_str())
}

/// Takes all images off the screen and frees their data.
pub fn delete_all_images() -> (r: Vec<u8>)
    ensures
        r@ == escape("a=d,d=a,q=2"@, Seq::empty()),
{
    let empty = String::new();
    kitty_esc("a=d,d=a,q=2", empty.as_str())
}

proof fn lemma_joined_chunks(payload: Seq<char>, n: nat)
    requires
        n <= chunk_count(payload.len()),
    ensures
        joined_chunks(payload, n) == payload.take(
            if n * KITTY_CHUNK <= payload.len() {
                n * KITTY_CHUNK
            } else {
                payload.len() as int
            },
        ),
    decreases n,
{
    if n > 0 {
        lemma_joined_chunks(payload, (n - 1) as nat);
        assert(joined_chunks(payload, n) =~= payload.take(
            if n * KITTY_CHUNK <= payload.len() {
                n * KITTY_CHUNK
            } else {
                payload.len() as int
            },
        ));
    } else {
        assert(payload.take(0) =~= Seq::empty());
    }
}

/// The chunks of a transmission, put together, are the whole payload, and no
/// chunk is longer than `KITTY_CHUNK` characters; all but the last are exactly
/// that long.
pub proof fn transmission_carries_the_payload(payload: Seq<char>)
    ensures
        joined_chunks(payload, chunk_count(payload.len())) == payload,
        forall|k: nat|
            k < chunk_count(payload.len()) ==> #[trigger] chunk(payload, k).len() <= KITTY_CHUNK,
        forall|k: nat|
            k + 1 < chunk_count(payload.len()) ==> #[trigger] chunk(payload, k).len()
                == KITTY_CHUNK,
{
    lemma_joined_chunks(payload, chunk_count(payload.len()));
    assert(payload.take(payload.len() as int) =~= payload);
}

} // verus!
