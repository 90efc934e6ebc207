//! Sums over the pixels of an image with four samples each.

use vstd::prelude::*;

verus! {

/// The sample `c` of the pixel at `x`, `y` in an image of `w` columns.
pub open spec fn sample_at(samples: Seq<u16>, w: nat, c: int, x: int, y: int) -> nat {
    samples[4 * (y * w + x) + c] as nat
}

/// The sum of the samples `c` of `rows` pixels, from the one at `x`, `y` down.
pub open spec fn column_sum(
    samples: Seq<u16>,
    w: nat,
    c: int,
    x: int,
    y: int,
    rows: nat,
) -> nat
    decreases rows,
{
    if rows == 0 {
        0
    } else {
        column_sum(samples, w, c, x, y, (rows - 1) as nat) + sample_at(
            samples,
            w,
            c,
            x,
            y + rows - 1,
        )
    }
}

/// The sum of the samples `c` of `cols` by `rows` pixels, from the one at `x`, `y` to
/// the right and down.
pub open spec fn window_sum(
    samples: Seq<u16>,
    w: nat,
    c: int,
    x: int,
    y: int,
    cols: nat,
    rows: nat,
) -> nat
    decreases cols,
{
    if cols == 0 {
        0
    } else {
        window_sum(samples, w, c, x, y, (cols - 1) as nat, rows) + column_sum(
            samples,
            w,
            c,
            x + cols - 1,
            y,
            rows,
        )
    }
}

/// Whether the samples `c` of any `cols` by `rows` pixels sum up to at most `limit`.
pub open spec fn channel_fits(
    samples: Seq<u16>,
    w: nat,
    h: nat,
    c: int,
    cols: nat,
    rows: nat,
    limit: int,
) -> bool {
    forall|x: int, y: int|
        0 <= x <= w - cols && 0 <= y <= h - rows ==> #[trigger] window_sum(
            samples,
            w,
            c,
            x,
            y,
            cols,
            rows,
        ) <= limit
}

/// Whether any `cols` by `rows` pixels of an image can be counted, and their samples
/// summed up and rounded, in 32 bits.
pub open spec fn windows_fit(samples: Seq<u16>, w: nat, h: nat, cols: nat, rows: nat) -> bool {
    let limit = u32::MAX - cols * rows / 2;
    &&& samples.len() >= 4 * (w * h)
    &&& cols * rows <= u32::MAX
    &&& channel_fits(samples, w, h, 0, cols, rows, limit)
    &&& channel_fits(samples, w, h, 1, cols, rows, limit)
    &&& channel_fits(samples, w, h, 2, cols, rows, limit)
    &&& channel_fits(samples, w, h, 3, cols, rows, limit)
}

/// The sum of `n` numbers from the position `from` on.
pub open spec fn range_sum(v: Seq<u64>, from: int, n: nat) -> nat
    decreases n,
{
    if n == 0 {
        0
    } else {
        range_sum(v, from, (n - 1) as nat) + v[from + n - 1] as nat
    }
}

proof fn lemma_range_front(v: Seq<u64>, from: int, n: nat)
    ensures
        range_sum(v, from, n + 1) == v[from] as nat + range_sum(v, from + 1, n),
    decreases n,
{
    if n > 0 {
        lemma_range_front(v, from, (n - 1) as nat);
    } else {
        assert(range_sum(v, from, 0) == 0);
    }
}

proof fn lemma_column_front(samples: Seq<u16>, w: nat, c: int, x: int, y: int, rows: nat)
    ensures
        column_sum(samples, w, c, x, y, rows + 1) == sample_at(samples, w, c, x, y) + column_sum(
            samples,
            w,
            c,
            x,
            y + 1,
            rows,
        ),
    decreases rows,
{
    if rows > 0 {
        lemma_column_front(samples, w, c, x, y, (rows - 1) as nat);
    } else {
        assert(column_sum(samples, w, c, x, y, 0) == 0);
    }
}

proof fn lemma_column_bound(samples: Seq<u16>, w: nat, c: int, x: int, y: int, rows: nat)
    ensures
        column_sum(samples, w, c, x, y, rows) <= 0x1_0000 * rows,
    decreases rows,
{
    if rows > 0 {
        lemma_column_bound(samples, w, c, x, y, (rows - 1) as nat);
    }
}

proof fn lemma_window_is_range(
    samples: Seq<u16>,
    sums: Seq<u64>,
    w: nat,
    c: int,
    x: int,
    y: int,
    cols: nat,
    rows: nat,
)
    requires
        0 <= x,
        x + cols <= w,
        sums.len() == w,
        forall|i: int|
            0 <= i < w ==> #[trigger] sums[i] == column_sum(samples, w, c, i, y, rows),
    ensures
        window_sum(samples, w, c, x, y, cols, rows) == range_sum(sums, x, cols),
    decreases cols,
{
    if cols > 0 {
        lemma_window_is_range(samples, sums, w, c, x, y, (cols - 1) as nat, rows);
        assert(sums[x + cols - 1] == column_sum(samples, w, c, x + cols - 1, y, rows));
    }
}

/// Samples of eight bits, each in sixteen.
pub open spec fn widened(bytes: Seq<u8>) -> Seq<u16> {
    bytes.map_values(|n: u8| n as u16)
}

/// Samples of eight bits, each in sixteen.
pub fn widen(bytes: &Vec<u8>) -> (r: Vec<u16>)
    ensures
        r@ == widened(bytes@),
{
    let mut out: Vec<u16> = Vec::new();
    let mut i: usize = 0;
    while i < bytes.len()
        invariant
            i <= bytes@.len(),
            out@ == widened(bytes@).take(i as int),
        decreases bytes@.len() - i,
    {
        out.push(bytes[i] as u16);
        i += 1;
        assert(out@ =~= widened(bytes@).take(i as int));
    }
    assert(out@ =~= widened(bytes@));
    out
}

/// The sample `c` of the pixel at `x`, `y` in an image of `w` by `h` pixels.
fn read_sample(samples: &Vec<u16>, w: usize, h: usize, c: usize, x: usize, y: usize) -> (r: u64)
    requires
        samples@.len() >= 4 * (w as nat * h as nat),
        c < 4,
        x < w,
        y < h,
    ensures
        r == sample_at(samples@, w as nat, c as int, x as int, y as int),
{
    let len = samples.len();
    assert(0 <= y * w <= w * h - w) by (nonlinear_arith)
        requires
            0 <= y < h,
            0 <= w,
    ;
    assert(4 * (w * h) <= len);
    samples[4 * (y * w + x) + c] as u64
}

/// The sums of all columns, of `rows` pixels from the top down.
fn column_sums(
    samples: &Vec<u16>,
    w: usize,
    h: usize,
    c: usize,
    rows: usize,
) -> (r: Vec<u64>)
    requires
        samples@.len() >= 4 * (w as nat * h as nat),
        c < 4,
        rows <= h <= u32::MAX,
    ensures
        r@.len() == w,
        forall|i: int|
            0 <= i < w ==> #[trigger] r@[i] == column_sum(
                samples@,
                w as nat,
                c as int,
                i,
                0,
                rows as nat,
            ),
{
    let mut out: Vec<u64> = Vec::new();
    let mut x: usize = 0;
    while x < w
        invariant
            samples@.len() >= 4 * (w as nat * h as nat),
            c < 4,
            rows <= h <= u32::MAX,
            x <= w,
            out@.len() == x,
            forall|i: int|
                0 <= i < x ==> #[trigger] out@[i] == column_sum(
                    samples@,
                    w as nat,
                    c as int,
                    i,
                    0,
                    rows as nat,
                ),
        decreases w - x,
    {
        let mut sum: u64 = 0;
        let mut y: usize = 0;
        while y < rows
            invariant
                samples@.len() >= 4 * (w as nat * h as nat),
                c < 4,
                x < w,
                y <= rows <= h <= u32::MAX,
                sum == column_sum(samples@, w as nat, c as int, x as int, 0, y as nat),
            decreases rows - y,
        {
            proof {
                lemma_column_bound(samples@, w as nat, c as int, x as int, 0, y as nat);
            }
            sum = sum + read_sample(samples, w, h, c, x, y);
            y += 1;
        }
        out.push(sum);
        x += 1;
    }
    out
}

/// Whether any `n` neighbours among some numbers sum up to at most `limit`.
fn ranges_fit(v: &Vec<u64>, n: usize, limit: u64) -> (r: bool)
    requires
        0 < n <= v@.len(),
        forall|i: int| 0 <= i < v@.len() ==> #[trigger] v@[i] <= 0x1_0000_0000_0000,
    ensures
        r <==> forall|x: int|
            0 <= x <= v@.len() - n ==> #[trigger] range_sum(v@, x, n as nat) <= limit,
{
    let mut sum: u128 = 0;
    let mut k: usize = 0;
    while k < n
        invariant
            k <= n <= v@.len(),
            sum == range_sum(v@, 0, k as nat),
            sum <= k * 0x1_0000_0000_0000,
            forall|i: int| 0 <= i < v@.len() ==> #[trigger] v@[i] <= 0x1_0000_0000_0000,
        decreases n - k,
    {
        sum = sum + v[k] as u128;
        k += 1;
    }
    let mut x: usize = 0;
    loop
        invariant
            0 < n <= v@.len(),
            x <= v@.len() - n,
            sum == range_sum(v@, x as int, n as nat),
            sum <= n * 0x1_0000_0000_0000 + x * 0x1_0000_0000_0000,
            forall|i: int| 0 <= i < v@.len() ==> #[trigger] v@[i] <= 0x1_0000_0000_0000,
            forall|i: int| 0 <= i < x ==> #[trigger] range_sum(v@, i, n as nat) <= limit,
        decreases v@.len() - x,
    {
        if sum > limit as u128 {
            assert(range_sum(v@, x as int, n as nat) > limit);
            return false;
        }
        if x == v.len() - n {
            return true;
        }
        proof {
            lemma_range_front(v@, x as int, n as nat);
            lemma_range_front(v@, x as int, (n - 1) as nat);
        }
        sum = sum - v[x] as u128 + v[x + n] as u128;
        x += 1;
    }
}

/// Whether the samples `c` of any `cols` by `rows` pixels sum up to at most `limit`.
fn channel_sums_up(
    samples: &Vec<u16>,
    w: usize,
    h: usize,
    c: usize,
    cols: usize,
    rows: usize,
    limit: u64,
) -> (r: bool)
    requires
        samples@.len() >= 4 * (w as nat * h as nat),
        c < 4,
        0 < cols <= w,
        0 < rows <= h <= u32::MAX,
    ensures
        r == channel_fits(
            samples@,
            w as nat,
            h as nat,
            c as int,
            cols as nat,
            rows as nat,
            limit as int,
        ),
{
    let ghost s = samples@;
    let ghost ci = c as int;
    let mut sums = column_sums(samples, w, h, c, rows);
    let mut y: usize = 0;
    loop
        invariant
            samples@ == s,
            ci == c,
            s.len() >= 4 * (w as nat * h as nat),
            c < 4,
            0 < cols <= w,
            0 < rows <= h <= u32::MAX,
            y <= h - rows,
            sums@.len() == w,
            forall|i: int|
                0 <= i < w ==> #[trigger] sums@[i] == column_sum(
                    s,
                    w as nat,
                    ci,
                    i,
                    y as int,
                    rows as nat,
                ),
            forall|x: int, z: int|
                0 <= x <= w - cols && 0 <= z < y ==> #[trigger] window_sum(
                    s,
                    w as nat,
                    ci,
                    x,
                    z,
                    cols as nat,
                    rows as nat,
                ) <= limit,
        decreases h - y,
    {
        proof {
            assert forall|i: int| 0 <= i < w implies #[trigger] sums@[i]
                <= 0x1_0000_0000_0000 by {
                lemma_column_bound(s, w as nat, ci, i, y as int, rows as nat);
            }
            assert forall|x: int| 0 <= x <= w - cols implies #[trigger] window_sum(
                s,
                w as nat,
                ci,
                x,
                y as int,
                cols as nat,
                rows as nat,
            ) == range_sum(sums@, x, cols as nat) by {
                lemma_window_is_range(
                    s,
                    sums@,
                    w as nat,
                    ci,
                    x,
                    y as int,
                    cols as nat,
                    rows as nat,
                );
            }
        }
        if !ranges_fit(&sums, cols, limit) {
            proof {
                let x = choose|x: int|
                    0 <= x <= sums@.len() - cols && #[trigger] range_sum(sums@, x, cols as nat)
                        > limit;
                assert(window_sum(s, w as nat, ci, x, y as int, cols as nat, rows as nat)
                    > limit);
            }
            return false;
        }
        assert forall|x: int| 0 <= x <= w - cols implies #[trigger] window_sum(
            s,
            w as nat,
            ci,
            x,
            y as int,
            cols as nat,
            rows as nat,
        ) <= limit by {
            assert(range_sum(sums@, x, cols as nat) <= limit);
        }
        if y == h - rows {
            return true;
        }
        let mut x: usize = 0;
        while x < w
            invariant
                samples@ == s,
                ci == c,
                s.len() >= 4 * (w as nat * h as nat),
                c < 4,
                0 < rows <= h <= u32::MAX,
                y < h - rows,
                x <= w,
                sums@.len() == w,
                forall|i: int|
                    0 <= i < x ==> #[trigger] sums@[i] == column_sum(
                        s,
                        w as nat,
                        ci,
                        i,
                        y + 1,
                        rows as nat,
                    ),
                forall|i: int|
                    x <= i < w ==> #[trigger] sums@[i] == column_sum(
                        s,
                        w as nat,
                        ci,
                        i,
                        y as int,
                        rows as nat,
                    ),
            decreases w - x,
        {
            proof {
                let xi = x as int;
                lemma_column_front(s, w as nat, ci, xi, y as int, rows as nat);
                lemma_column_front(s, w as nat, ci, xi, y as int, (rows - 1) as nat);
                lemma_column_bound(s, w as nat, ci, xi, y as int, rows as nat);
                assert(sums@[xi] == column_sum(s, w as nat, ci, xi, y as int, rows as nat));
            }
            let gone = read_sample(samples, w, h, c, x, y);
            let come = read_sample(samples, w, h, c, x, y + rows);
            let sum = sums[x] - gone + come;
            sums.set(x, sum);
            x += 1;
        }
        y += 1;
    }
}

/// Whether any `cols` by `rows` pixels of an image of `w` by `h` pixels can be counted,
/// and their samples summed up and rounded, in 32 bits.
pub fn windows_sum_up(samples: &Vec<u16>, w: u32, h: u32, cols: u32, rows: u32) -> (r: bool)
    requires
        0 < cols <= w,
        0 < rows <= h,
    ensures
        r == windows_fit(samples@, w as nat, h as nat, cols as nat, rows as nat),
{
    assert(w as nat * h as nat <= u32::MAX as nat * u32::MAX as nat) by (nonlinear_arith)
        requires
            w <= u32::MAX,
            h <= u32::MAX,
    ;
    if (samples.len() as u128) < 4 * (w as u128 * h as u128) {
        return false;
    }
    assert(cols as nat * rows as nat <= u32::MAX as nat * u32::MAX as nat) by (nonlinear_arith)
        requires
            cols <= u32::MAX,
            rows <= u32::MAX,
    ;
    let n = cols as u64 * rows as u64;
    if n > u32::MAX as u64 {
        return false;
    }
    let limit = u32::MAX as u64 - n / 2;
    let (w, h, cols, rows) = (w as usize, h as usize, cols as usize, rows as usize);
    channel_sums_up(samples, w, h, 0, cols, rows, limit) && channel_sums_up(
        samples,
        w,
        h,
        1,
        cols,
        rows,
        limit,
    ) && channel_sums_up(samples, w, h, 2, cols, rows, limit) && channel_sums_up(
        samples,
        w,
        h,
        3,
        cols,
        rows,
        limit,
    )
}

} // verus!
