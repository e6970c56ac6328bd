//! The byte work of importing a client's shared-memory buffer: the alpha
//! rule for the two 32-bit formats the blitter addresses, the bounds check on
//! the geometry a client claims, the damage-clipped partial copy, and the
//! copy of a rectangle out of a 32-bpp buffer.
//!
//! `Xrgb8888`'s fourth byte is padding with no defined value, and the blitter
//! reads it as alpha, so every whole pixel of an `Xrgb8888` buffer is written
//! with alpha 0xff. `Argb8888` keeps what the client drew, and whether every
//! pixel came out opaque is reported, not assumed.

use vstd::prelude::*;
use crate::geom::Rect;

verus! {

/// The two 32-bit formats the blitter can address.
#[derive(Debug, Clone, Copy, PartialEq, Eq, Structural)]
pub enum PixelFormat {
    /// Alpha in the fourth byte.
    Argb8888,
    /// Padding in the fourth byte.
    Xrgb8888,
}

/// Why an import or a copy was refused.
#[derive(Debug, Clone, Copy, PartialEq, Eq, Structural)]
pub enum PixelError {
    /// `stride * height` overflows.
    SizeOverflows,
    /// `offset + stride * height` overflows.
    OffsetOverflows,
    /// The pool is shorter than the geometry it claims.
    PoolTooShort,
    /// The copy region lies outside the source.
    RegionOutside,
    /// A row of the copy region runs past the end of the source.
    RegionOverruns,
}

impl PixelError {
    /// The refusal, in words.
    pub fn message(self) -> (m: &'static str)
        ensures
            m@ == error_text(self),
    {
        match self {
            PixelError::SizeOverflows => "shm stride * height overflows",
            PixelError::OffsetOverflows => "shm offset + size overflows",
            PixelError::PoolTooShort => "shm buffer shorter than its geometry",
            PixelError::RegionOutside => "copy region lies outside the source",
            PixelError::RegionOverruns => "copy region overruns the source",
        }
    }
}

/// The words of each refusal.
pub open spec fn error_text(e: PixelError) -> Seq<char> {
    match e {
        PixelError::SizeOverflows => "shm stride * height overflows"@,
        PixelError::OffsetOverflows => "shm offset + size overflows"@,
        PixelError::PoolTooShort => "shm buffer shorter than its geometry"@,
        PixelError::RegionOutside => "copy region lies outside the source"@,
        PixelError::RegionOverruns => "copy region overruns the source"@,
    }
}

/// Every whole 4-byte pixel of `s` has alpha 0xff.
pub open spec fn alpha_opaque(s: Seq<u8>) -> bool {
    forall|i: int| 0 <= i < s.len() - s.len() % 4 && i % 4 == 3 ==> s[i] == 0xff
}

/// `s` with its alpha rule applied: for `Xrgb8888` the fourth byte of every
/// whole pixel becomes 0xff; a trailing partial pixel, and every byte of
/// `Argb8888`, stays as it is.
pub open spec fn normalised(s: Seq<u8>, format: PixelFormat) -> Seq<u8> {
    Seq::new(
        s.len(),
        |i: int|
            if format == PixelFormat::Xrgb8888 && i < s.len() - s.len() % 4 && i % 4 == 3 {
                0xffu8
            } else {
                s[i]
            },
    )
}

/// Whether the bytes `s`, once normalised, are fully opaque.
pub open spec fn comes_out_opaque(s: Seq<u8>, format: PixelFormat) -> bool {
    format == PixelFormat::Xrgb8888 || alpha_opaque(s)
}

/// The alpha rule: `Argb8888` bytes pass through untouched, every whole
/// pixel of `Xrgb8888` comes out opaque, and applying the rule twice is
/// applying it once, with the same answer about opacity.
pub proof fn lemma_alpha_rule(s: Seq<u8>, format: PixelFormat)
    ensures
        normalised(s, PixelFormat::Argb8888) == s,
        alpha_opaque(normalised(s, PixelFormat::Xrgb8888)),
        normalised(normalised(s, format), format) == normalised(s, format),
        comes_out_opaque(normalised(s, format), format) == comes_out_opaque(s, format),
{
    assert(normalised(s, PixelFormat::Argb8888) =~= s);
    assert(normalised(normalised(s, format), format) =~= normalised(s, format));
}

/// `dst` with `dst[a..b]` replaced by `src[a..b]` normalised.
pub open spec fn spliced(dst: Seq<u8>, src: Seq<u8>, a: int, b: int, format: PixelFormat) -> Seq<u8> {
    dst.subrange(0, a) + normalised(src.subrange(a, b), format) + dst.subrange(b, dst.len() as int)
}

/// Copy `src[a..b]` over `dst[a..b]` and apply the alpha rule in the same
/// walk; the prior contents of `dst[a..b]` are never read. Returns whether
/// every whole pixel written is opaque.
pub fn copy_normalising_range(
    dst: &mut Vec<u8>,
    src: &[u8],
    a: usize,
    b: usize,
    format: PixelFormat,
) -> (opaque: bool)
    requires
        a <= b <= old(dst)@.len(),
        b <= src@.len(),
    ensures
        final(dst)@ == spliced(old(dst)@, src@, a as int, b as int, format),
        opaque == comes_out_opaque(src@.subrange(a as int, b as int), format),
{
    let ghost piece = src@.subrange(a as int, b as int);
    let whole = b - (b - a) % 4;
    let xrgb = match format {
        PixelFormat::Xrgb8888 => true,
        PixelFormat::Argb8888 => false,
    };
    let mut opaque = true;
    let mut i = a;
    while i < b
        invariant
            a <= i <= b,
            b <= dst@.len(),
            b <= src@.len(),
            dst@.len() == old(dst)@.len(),
            whole == b - (b - a) % 4,
            piece == src@.subrange(a as int, b as int),
            xrgb == (format == PixelFormat::Xrgb8888),
            forall|j: int| 0 <= j < a ==> dst@[j] == old(dst)@[j],
            forall|j: int| b <= j < dst@.len() ==> dst@[j] == old(dst)@[j],
            forall|j: int| a <= j < i ==> dst@[j] == normalised(piece, format)[j - a],
            opaque == (forall|j: int|
                0 <= j < i - a && j < piece.len() - piece.len() % 4 && j % 4 == 3 ==> piece[j] == 0xff),
        decreases b - i,
    {
        let off = i - a;
        let byte = src[i];
        let alpha = off % 4 == 3 && i < whole;
        let ghost was = opaque;
        if alpha && byte != 0xff {
            opaque = false;
        }
        if alpha && xrgb {
            dst.set(i, 0xff);
        } else {
            dst.set(i, byte);
        }
        proof {
            assert(piece[off as int] == byte);
            assert(piece.len() == b - a);
            let next = i + 1 - a;
            if opaque {
                assert forall|j: int|
                    0 <= j < next && j < piece.len() - piece.len() % 4 && j % 4 == 3 implies piece[j]
                    == 0xff by {
                    if j < off {
                        assert(was);
                    }
                }
            } else if was {
                assert(0 <= off < next && off < piece.len() - piece.len() % 4 && off % 4 == 3
                    && piece[off as int] != 0xff);
            } else {
                let w = choose|j: int|
                    0 <= j < i - a && j < piece.len() - piece.len() % 4 && j % 4 == 3 && piece[j]
                        != 0xff;
                assert(0 <= w < next && w < piece.len() - piece.len() % 4 && w % 4 == 3 && piece[w]
                    != 0xff);
            }
        }
        i = i + 1;
    }
    proof {
        assert(dst@ =~= spliced(old(dst)@, src@, a as int, b as int, format));
    }
    xrgb || opaque
}

/// Copy `src` into `dst` and apply the alpha rule in the same walk. Returns
/// whether every whole pixel written is opaque, exactly as
/// `normalise_opaque` reports for the same bytes.
pub fn copy_normalising(dst: &mut Vec<u8>, src: &[u8], format: PixelFormat) -> (opaque: bool)
    requires
        old(dst)@.len() == src@.len(),
    ensures
        final(dst)@ == normalised(src@, format),
        opaque == comes_out_opaque(src@, format),
{
    let n = src.len();
    let opaque = copy_normalising_range(dst, src, 0, n, format);
    proof {
        assert(src@.subrange(0, n as int) =~= src@);
        assert(dst@ =~= normalised(src@, format));
    }
    opaque
}

/// Apply the alpha rule to `bytes` in place. Returns whether every whole
/// pixel is opaque afterwards: always for `Xrgb8888`, measured for
/// `Argb8888`.
pub fn normalise_opaque(bytes: &mut Vec<u8>, format: PixelFormat) -> (opaque: bool)
    ensures
        final(bytes)@ == normalised(old(bytes)@, format),
        opaque == comes_out_opaque(old(bytes)@, format),
{
    let n = bytes.len();
    let ghost start = bytes@;
    let whole = n - n % 4;
    let mut opaque = true;
    let mut i: usize = 0;
    while i < n
        invariant
            i <= n,
            n == start.len(),
            whole == n - n % 4,
            bytes@.len() == n,
            forall|j: int| i <= j < n ==> bytes@[j] == start[j],
            forall|j: int| 0 <= j < i ==> bytes@[j] == normalised(start, format)[j],
            opaque == (forall|j: int| 0 <= j < i && j < whole && j % 4 == 3 ==> start[j] == 0xff),
        decreases n - i,
    {
        let alpha = i % 4 == 3 && i < whole;
        let ghost was = opaque;
        if alpha {
            if bytes[i] != 0xff {
                opaque = false;
            }
            match format {
                PixelFormat::Xrgb8888 => {
                    bytes.set(i, 0xff);
                },
                PixelFormat::Argb8888 => {},
            }
        }
        proof {
            if opaque {
                assert forall|j: int| 0 <= j < i + 1 && j < whole && j % 4 == 3 implies start[j]
                    == 0xff by {
                    if j < i {
                        assert(was);
                    }
                }
            } else if was {
                assert(0 <= i < i + 1 && i < whole && i % 4 == 3 && start[i as int] != 0xff);
            } else {
                let w = choose|j: int| 0 <= j < i && j < whole && j % 4 == 3 && start[j] != 0xff;
                assert(0 <= w < i + 1 && w < whole && w % 4 == 3 && start[w] != 0xff);
            }
        }
        i = i + 1;
    }
    proof {
        assert(bytes@ =~= normalised(start, format));
    }
    match format {
        PixelFormat::Xrgb8888 => true,
        PixelFormat::Argb8888 => opaque,
    }
}

/// The DRM fourcc codes of the two formats the blitter can address.
pub const FOURCC_ARGB8888: u32 = 0x34325241;

/// See [`FOURCC_ARGB8888`].
pub const FOURCC_XRGB8888: u32 = 0x34325258;

/// The format a client's fourcc names, when the blitter can address it.
pub fn addressable(fourcc: u32) -> (r: Option<PixelFormat>)
    ensures
        r == (if fourcc == FOURCC_ARGB8888 {
            Some(PixelFormat::Argb8888)
        } else if fourcc == FOURCC_XRGB8888 {
            Some(PixelFormat::Xrgb8888)
        } else {
            None
        }),
{
    if fourcc == FOURCC_ARGB8888 {
        Some(PixelFormat::Argb8888)
    } else if fourcc == FOURCC_XRGB8888 {
        Some(PixelFormat::Xrgb8888)
    } else {
        None
    }
}

/// How far into a pool of `len` bytes a buffer at `offset`, `height` rows of
/// `stride` bytes, reaches: the geometry comes from the client, so it is
/// checked, never trusted.
pub fn shm_extent(offset: usize, stride: usize, height: usize, len: usize) -> (r: Result<usize, PixelError>)
    ensures
        stride * height > usize::MAX ==> r == Err::<usize, PixelError>(PixelError::SizeOverflows),
        stride * height <= usize::MAX && offset + stride * height > usize::MAX ==> r == Err::<usize, PixelError>(
            PixelError::OffsetOverflows,
        ),
        offset + stride * height <= usize::MAX && offset + stride * height > len ==> r == Err::<usize, PixelError>(
            PixelError::PoolTooShort,
        ),
        offset + stride * height <= len ==> r == Ok::<usize, PixelError>((offset + stride * height) as usize),
{
    let size = match stride.checked_mul(height) {
        Some(v) => v,
        None => {
            return Err(PixelError::SizeOverflows);
        },
    };
    let need = match offset.checked_add(size) {
        Some(v) => v,
        None => {
            proof {
                assert(stride * height <= usize::MAX);
            }
            return Err(PixelError::OffsetOverflows);
        },
    };
    if need > len {
        return Err(PixelError::PoolTooShort);
    }
    Ok(need)
}

/// The bytes of each row a damage rectangle covers: its columns clipped at 0
/// and at the stride, four bytes a pixel.
pub open spec fn col_span(d: Rect, stride: int) -> (int, int) {
    let x0: int = if d.x < 0 {
        0
    } else {
        d.x as int
    };
    let x1: int = if d.x + d.w < 0 {
        0
    } else {
        d.x + d.w
    };
    (x0 * 4, if x1 * 4 < stride {
        x1 * 4
    } else {
        stride
    })
}

/// `v` clamped into `[0, hi]`.
pub open spec fn clamp_to(v: int, hi: int) -> int {
    if v < 0 {
        0
    } else if v > hi {
        hi
    } else {
        v
    }
}

/// Copy rows `y..y1` of the span `lo..hi`, each normalised, stopping at the
/// first row that runs past either buffer: the bytes, whether all of them came
/// out opaque, and how many were copied.
pub open spec fn copy_rows(
    buf: Seq<u8>,
    src: Seq<u8>,
    y: int,
    y1: int,
    lo: int,
    hi: int,
    stride: int,
    format: PixelFormat,
) -> (Seq<u8>, bool, nat)
    decreases y1 - y,
{
    if y >= y1 {
        (buf, true, 0)
    } else {
        let a = y * stride + lo;
        let b = y * stride + hi;
        if b > buf.len() || b > src.len() {
            (buf, true, 0)
        } else {
            let rest = copy_rows(spliced(buf, src, a, b, format), src, y + 1, y1, lo, hi, stride, format);
            (rest.0, comes_out_opaque(src.subrange(a, b), format) && rest.1, (b - a) as nat + rest.2)
        }
    }
}

/// One damage rectangle's rows copied, or nothing where its columns are empty.
pub open spec fn copy_rect(
    buf: Seq<u8>,
    src: Seq<u8>,
    d: Rect,
    height: int,
    stride: int,
    format: PixelFormat,
) -> (Seq<u8>, bool, nat) {
    let (lo, hi) = col_span(d, stride);
    if hi <= lo {
        (buf, true, 0)
    } else {
        copy_rows(buf, src, clamp_to(d.y as int, height), clamp_to(d.y + d.h, height), lo, hi, stride, format)
    }
}

/// Every damage rectangle's rows copied in turn.
pub open spec fn copy_rects(
    buf: Seq<u8>,
    src: Seq<u8>,
    damage: Seq<Rect>,
    height: int,
    stride: int,
    format: PixelFormat,
) -> (Seq<u8>, bool, nat)
    decreases damage.len(),
{
    if damage.len() == 0 {
        (buf, true, 0)
    } else {
        let first = copy_rect(buf, src, damage[0], height, stride, format);
        let rest = copy_rects(first.0, src, damage.drop_first(), height, stride, format);
        (rest.0, first.1 && rest.1, first.2 + rest.2)
    }
}

/// `n`, or `u64::MAX` where it is larger.
pub open spec fn saturated(n: nat) -> u64 {
    if n > u64::MAX {
        u64::MAX
    } else {
        n as u64
    }
}

/// Copy one damage rectangle's rows, normalising each: whether they came out
/// opaque, and how many bytes were copied.
fn copy_one_rect(
    buf: &mut Vec<u8>,
    src: &[u8],
    d: Rect,
    height: usize,
    stride: usize,
    format: PixelFormat,
) -> (r: (bool, u64))
    ensures
        final(buf)@ == copy_rect(old(buf)@, src@, d, height as int, stride as int, format).0,
        r.0 == copy_rect(old(buf)@, src@, d, height as int, stride as int, format).1,
        r.1 == saturated(copy_rect(old(buf)@, src@, d, height as int, stride as int, format).2),
{
    let x0: u64 = if d.x < 0 {
        0
    } else {
        d.x as u64
    };
    let right: i64 = d.x as i64 + d.w as i64;
    let x1: u64 = if right < 0 {
        0
    } else {
        right as u64
    };
    let lo: u64 = x0 * 4;
    let hi: u64 = if x1 * 4 < stride as u64 {
        x1 * 4
    } else {
        stride as u64
    };
    if hi <= lo {
        return (true, 0);
    }
    let lo = lo as usize;
    let hi = hi as usize;
    let top: i64 = d.y as i64;
    let bottom: i64 = d.y as i64 + d.h as i64;
    let y0: usize = if top < 0 {
        0
    } else if top as u64 > height as u64 {
        height
    } else {
        top as usize
    };
    let y1: usize = if bottom < 0 {
        0
    } else if bottom as u64 > height as u64 {
        height
    } else {
        bottom as usize
    };
    let ghost start = buf@;
    let ghost all = copy_rows(start, src@, y0 as int, y1 as int, lo as int, hi as int, stride as int, format);
    let mut opaque = true;
    let mut count: u64 = 0;
    let mut y = y0;
    while y < y1
        invariant
            lo < hi <= stride,
            y0 <= y,
            ({
                let rest = copy_rows(buf@, src@, y as int, y1 as int, lo as int, hi as int, stride as int, format);
                &&& all.0 == rest.0
                &&& all.1 == (opaque && rest.1)
                &&& saturated(all.2) == saturated(count as nat + rest.2)
            }),
        ensures
            ({
                &&& all.0 == buf@
                &&& all.1 == opaque
                &&& saturated(all.2) == count
            }),
        decreases y1 - y,
    {
        let blen = buf.len();
        let row = match y.checked_mul(stride) {
            Some(v) => v,
            None => {
                proof {
                    assert(y * stride + hi > blen);
                }
                break;
            },
        };
        let b = match row.checked_add(hi) {
            Some(v) => v,
            None => {
                proof {
                    assert(y * stride + hi > blen);
                }
                break;
            },
        };
        if b > buf.len() || b > src.len() {
            break;
        }
        let a = row + lo;
        let o = copy_normalising_range(buf, src, a, b, format);
        opaque = opaque && o;
        count = count.saturating_add((b - a) as u64);
        y = y + 1;
    }
    proof {
        assert(col_span(d, stride as int) == (lo as int, hi as int));
        assert(y0 as int == clamp_to(d.y as int, height as int));
        assert(y1 as int == clamp_to(d.y + d.h, height as int));
    }
    (opaque, count)
}

/// Copy only the damaged rows of a client buffer into its cached texture,
/// normalising each as it lands. Returns whether every byte copied came out
/// opaque (the caller may only ever clear its flag with this, since the rows
/// not copied were not looked at) and how many bytes crossed the CPU.
pub fn copy_damage(
    buf: &mut Vec<u8>,
    src: &[u8],
    damage: &[Rect],
    height: usize,
    stride: usize,
    format: PixelFormat,
) -> (r: (bool, u64))
    ensures
        final(buf)@ == copy_rects(old(buf)@, src@, damage@, height as int, stride as int, format).0,
        r.0 == copy_rects(old(buf)@, src@, damage@, height as int, stride as int, format).1,
        r.1 == saturated(copy_rects(old(buf)@, src@, damage@, height as int, stride as int, format).2),
{
    let ghost all = copy_rects(buf@, src@, damage@, height as int, stride as int, format);
    let mut opaque = true;
    let mut count: u64 = 0;
    let mut k: usize = 0;
    proof {
        assert(damage@.skip(0) =~= damage@);
    }
    while k < damage.len()
        invariant
            k <= damage@.len(),
            ({
                let rest = copy_rects(buf@, src@, damage@.skip(k as int), height as int, stride as int, format);
                &&& all.0 == rest.0
                &&& all.1 == (opaque && rest.1)
                &&& saturated(all.2) == saturated(count as nat + rest.2)
            }),
        decreases damage@.len() - k,
    {
        let d = damage[k];
        let ghost here = damage@.skip(k as int);
        proof {
            assert(here[0] == d);
            assert(here.drop_first() =~= damage@.skip(k + 1));
        }
        let (o, n) = copy_one_rect(buf, src, d, height, stride, format);
        opaque = opaque && o;
        count = count.saturating_add(n);
        k = k + 1;
    }
    proof {
        assert(damage@.skip(k as int) =~= Seq::<Rect>::empty());
    }
    (opaque, count)
}

/// Whether every row of `r` lies inside a source of `len` bytes, `stride`
/// bytes a row and four bytes a pixel.
pub open spec fn region_fits(len: int, stride: int, r: Rect) -> bool {
    forall|i: int| 0 <= i < r.h ==> #[trigger] row_end(stride, r, i) <= len
}

/// Where row `i` of region `r` ends in its source.
pub open spec fn row_end(stride: int, r: Rect, i: int) -> int {
    (r.y + i) * stride + r.x * 4 + r.w * 4
}

/// The bytes of rows `y..y + n` of the columns `x..x + w`, row after row.
pub open spec fn region_rows(src: Seq<u8>, stride: int, x: int, w: int, y: int, n: nat) -> Seq<u8>
    decreases n,
{
    if n == 0 {
        Seq::empty()
    } else {
        let row = y * stride + x * 4;
        src.subrange(row, row + w * 4) + region_rows(src, stride, x, w, y + 1, (n - 1) as nat)
    }
}

/// The bytes of rows `y..y + n` before the rows that follow: reading rows
/// one at a time from the top builds the same bytes.
proof fn lemma_region_rows_step(src: Seq<u8>, stride: int, x: int, w: int, y: int, n: nat)
    ensures
        region_rows(src, stride, x, w, y, n + 1) == region_rows(src, stride, x, w, y, n) + src.subrange(
            (y + n) * stride + x * 4,
            (y + n) * stride + x * 4 + w * 4,
        ),
    decreases n,
{
    if n == 0 {
        assert(region_rows(src, stride, x, w, y + 1, 0) =~= Seq::<u8>::empty());
        assert(region_rows(src, stride, x, w, y, 1) =~= src.subrange(y * stride + x * 4, y * stride + x * 4 + w
            * 4));
    } else {
        lemma_region_rows_step(src, stride, x, w, y + 1, (n - 1) as nat);
        assert((y + 1) + (n - 1) == y + n);
        assert(region_rows(src, stride, x, w, y, n + 1) =~= region_rows(src, stride, x, w, y, n) + src.subrange(
            (y + n) * stride + x * 4,
            (y + n) * stride + x * 4 + w * 4,
        ));
    }
}

/// What copying `clipped` out of `src` gives: a refusal where there is no
/// region, the region's rows where they all lie inside the source, and
/// otherwise a refusal that a row overruns it.
pub open spec fn region_copied(src: Seq<u8>, stride: int, clipped: Option<Rect>, r: Result<Vec<u8>, PixelError>) -> bool {
    match clipped {
        None => r == Err::<Vec<u8>, PixelError>(PixelError::RegionOutside),
        Some(c) => if region_fits(src.len() as int, stride, c) {
            r matches Ok(v) && v@ == region_rows(src, stride, c.x as int, c.w as int, c.y as int, c.h as nat)
        } else {
            r == Err::<Vec<u8>, PixelError>(PixelError::RegionOverruns)
        },
    }
}

/// Copy a rectangle out of a 32-bpp buffer, row by row. `clipped` is the
/// copy region already intersected with the source's own extent, `None`
/// where they do not meet.
pub fn copy_region(src: &[u8], src_stride: usize, clipped: Option<Rect>) -> (r: Result<Vec<u8>, PixelError>)
    requires
        clipped matches Some(c) ==> c.x >= 0 && c.y >= 0 && c.w >= 0 && c.h >= 0,
    ensures
        region_copied(src@, src_stride as int, clipped, r),
{
    let c = match clipped {
        Some(c) => c,
        None => {
            return Err(PixelError::RegionOutside);
        },
    };
    let x = c.x as usize;
    let w = c.w as usize;
    let y0 = c.y as usize;
    let n = c.h as usize;
    let len = src.len();
    let mut out: Vec<u8> = Vec::new();
    let mut i: usize = 0;
    while i < n
        invariant
            i <= n,
            n == c.h,
            x == c.x,
            w == c.w,
            y0 == c.y,
            len == src@.len(),
            clipped == Some(c),
            c.x >= 0 && c.y >= 0 && c.w >= 0 && c.h >= 0,
            forall|j: int| 0 <= j < i ==> #[trigger] row_end(src_stride as int, c, j) <= len,
            out@ == region_rows(src@, src_stride as int, c.x as int, c.w as int, c.y as int, i as nat),
        decreases n - i,
    {
        let ghost yy = c.y + i;
        let last: Option<usize> = match (y0 + i).checked_mul(src_stride) {
            Some(base) => match (x as u64).checked_mul(4) {
                Some(xb) => match (w as u64).checked_mul(4) {
                    Some(wb) => if (base as u64).checked_add(xb).is_some() && ((base as u64) + xb).checked_add(wb).is_some() && (base as u64) + xb + wb <= len as u64 {
                        Some(((base as u64) + xb + wb) as usize)
                    } else {
                        None
                    },
                    None => None,
                },
                None => None,
            },
            None => None,
        };
        let end = match last {
            Some(e) => e,
            None => {
                proof {
                    assert(!(row_end(src_stride as int, c, i as int) <= len));
                    assert(0 <= i < c.h);
                    assert(!region_fits(src@.len() as int, src_stride as int, c));
                }
                return Err(PixelError::RegionOverruns);
            },
        };
        let start = end - w * 4;
        proof {
            assert(start == yy * src_stride + c.x * 4);
            lemma_region_rows_step(src@, src_stride as int, c.x as int, c.w as int, c.y as int, i as nat);
        }
        let mut k = start;
        let ghost before = out@;
        while k < end
            invariant
                start <= k <= end,
                end <= src@.len(),
                out@ == before + src@.subrange(start as int, k as int),
            decreases end - k,
        {
            out.push(src[k]);
            proof {
                assert(out@ =~= before + src@.subrange(start as int, k + 1));
            }
            k = k + 1;
        }
        i = i + 1;
    }
    proof {
        assert(region_fits(src@.len() as int, src_stride as int, c));
    }
    Ok(out)
}

/// How many bytes a flush of the composed shadow copies into the scanout
/// mapping: the whole frame, as far as both buffers reach.
pub open spec fn flush_len(stride: int, height: int, data_len: int, shadow_len: int) -> int {
    let full = if stride * height > usize::MAX {
        usize::MAX as int
    } else {
        stride * height
    };
    let a = if full < data_len {
        full
    } else {
        data_len
    };
    if a < shadow_len {
        a
    } else {
        shadow_len
    }
}

/// Copy the composed shadow into the scanout mapping: every row of the frame
/// that both buffers hold, whatever the damage, because the mapping's own
/// contents are not known.
pub fn flush_full(data: &mut Vec<u8>, shadow: &[u8], stride: usize, height: u32) -> (n: usize)
    ensures
        n == flush_len(stride as int, height as int, old(data)@.len() as int, shadow@.len() as int),
        final(data)@ == shadow@.subrange(0, n as int) + old(data)@.subrange(n as int, old(data)@.len() as int),
{
    let full = match stride.checked_mul(height as usize) {
        Some(v) => v,
        None => usize::MAX,
    };
    let dl = data.len();
    let a = if full < dl {
        full
    } else {
        dl
    };
    let n = if a < shadow.len() {
        a
    } else {
        shadow.len()
    };
    let mut i: usize = 0;
    while i < n
        invariant
            i <= n,
            n <= shadow@.len(),
            n <= data@.len(),
            data@.len() == old(data)@.len(),
            forall|j: int| 0 <= j < i ==> data@[j] == shadow@[j],
            forall|j: int| i <= j < data@.len() ==> data@[j] == old(data)@[j],
        decreases n - i,
    {
        data.set(i, shadow[i]);
        i = i + 1;
    }
    proof {
        assert(data@ =~= shadow@.subrange(0, n as int) + old(data)@.subrange(n as int, old(data)@.len() as int));
    }
    n
}

/// The DRM format modifier of a linear layout.
pub const MODIFIER_LINEAR: u64 = 0;

/// Why a client's dmabuf cannot be textured by a CPU blitter.
#[derive(Debug, Clone, Copy, PartialEq, Eq, Structural)]
pub enum DmabufRefusal {
    /// More than one plane.
    MultiPlane,
    /// Not linear: an implicit or tiled layout a CPU cannot address.
    NonLinear,
    /// A pixel format the blitter cannot address.
    Format,
}

impl DmabufRefusal {
    /// The refusal, in words.
    pub fn message(self) -> (m: &'static str)
        ensures
            m@ == match self {
                DmabufRefusal::MultiPlane => "multi-plane dmabuf"@,
                DmabufRefusal::NonLinear => "non-linear modifier"@,
                DmabufRefusal::Format => "pixel format nuri cannot address"@,
            },
    {
        match self {
            DmabufRefusal::MultiPlane => "multi-plane dmabuf",
            DmabufRefusal::NonLinear => "non-linear modifier",
            DmabufRefusal::Format => "pixel format nuri cannot address",
        }
    }
}

/// Whether a dmabuf can be accepted, the one predicate both the protocol and
/// the import obey: a single plane, the linear layout, and one of the two
/// addressable formats, checked in that order.
pub fn dmabuf_accepts(num_planes: usize, modifier: u64, fourcc: u32) -> (r: Result<(), DmabufRefusal>)
    ensures
        r == (if num_planes != 1 {
            Err(DmabufRefusal::MultiPlane)
        } else if modifier != MODIFIER_LINEAR {
            Err(DmabufRefusal::NonLinear)
        } else if fourcc != FOURCC_ARGB8888 && fourcc != FOURCC_XRGB8888 {
            Err(DmabufRefusal::Format)
        } else {
            Ok(())
        }),
{
    if num_planes != 1 {
        return Err(DmabufRefusal::MultiPlane);
    }
    if modifier != MODIFIER_LINEAR {
        return Err(DmabufRefusal::NonLinear);
    }
    match addressable(fourcc) {
        Some(_) => Ok(()),
        None => Err(DmabufRefusal::Format),
    }
}

} // verus!
