//! Containers for the application icons: a PNG encoder that only writes
//! "stored" deflate blocks, an ICO container of 32bpp DIB images, and the two
//! checksums they need (CRC-32 and Adler-32).
//!
//! The artwork itself is rendered elsewhere; everything here turns RGBA pixel
//! buffers into file bytes.

use vstd::prelude::*;

verus! {

// ---------------------------------------------------------------------------
// Byte helpers
// ---------------------------------------------------------------------------

pub open spec fn le16(v: u16) -> Seq<u8> {
    seq![(v & 0xff) as u8, (v >> 8) as u8]
}

pub open spec fn le32(v: u32) -> Seq<u8> {
    seq![(v & 0xff) as u8, ((v >> 8) & 0xff) as u8, ((v >> 16) & 0xff) as u8, (v >> 24) as u8]
}

pub open spec fn be32(v: u32) -> Seq<u8> {
    seq![(v >> 24) as u8, ((v >> 16) & 0xff) as u8, ((v >> 8) & 0xff) as u8, (v & 0xff) as u8]
}

fn push_le16(out: &mut Vec<u8>, v: u16)
    ensures
        final(out)@ == old(out)@ + le16(v),
{
    out.push((v & 0xff) as u8);
    out.push((v >> 8) as u8);
    assert(final(out)@ =~= old(out)@ + le16(v));
}

fn push_le32(out: &mut Vec<u8>, v: u32)
    ensures
        final(out)@ == old(out)@ + le32(v),
{
    out.push((v & 0xff) as u8);
    out.push(((v >> 8) & 0xff) as u8);
    out.push(((v >> 16) & 0xff) as u8);
    out.push((v >> 24) as u8);
    assert(final(out)@ =~= old(out)@ + le32(v));
}

fn push_be32(out: &mut Vec<u8>, v: u32)
    ensures
        final(out)@ == old(out)@ + be32(v),
{
    out.push((v >> 24) as u8);
    out.push(((v >> 16) & 0xff) as u8);
    out.push(((v >> 8) & 0xff) as u8);
    out.push((v & 0xff) as u8);
    assert(final(out)@ =~= old(out)@ + be32(v));
}

fn push_bytes(out: &mut Vec<u8>, s: &[u8], from: usize, to: usize)
    requires
        from <= to <= s@.len(),
    ensures
        final(out)@ == old(out)@ + s@.subrange(from as int, to as int),
{
    let mut i: usize = from;
    while i < to
        invariant
            from <= i <= to <= s@.len(),
            out@ == old(out)@ + s@.subrange(from as int, i as int),
        decreases to - i,
    {
        out.push(s[i]);
        i += 1;
        assert(s@.subrange(from as int, i as int) =~= s@.subrange(from as int, i - 1).push(
            s@[i - 1],
        ));
    }
}

// ---------------------------------------------------------------------------
// Checksums
// ---------------------------------------------------------------------------

/// One bit of the reflected CRC-32 (polynomial 0xEDB88320).
pub open spec fn crc_bit(c: u32) -> u32 {
    (c >> 1) ^ (0xEDB8_8320u32 & (if c & 1 == 1 {
        0xFFFF_FFFFu32
    } else {
        0u32
    }))
}

pub open spec fn crc_bits(c: u32, n: nat) -> u32
    decreases n,
{
    if n == 0 {
        c
    } else {
        crc_bits(crc_bit(c), (n - 1) as nat)
    }
}

pub open spec fn crc_byte(c: u32, b: u8) -> u32 {
    crc_bits(c ^ (b as u32), 8)
}

pub open spec fn crc_fold(c: u32, data: Seq<u8>) -> u32
    decreases data.len(),
{
    if data.len() == 0 {
        c
    } else {
        crc_fold(crc_byte(c, data[0]), data.drop_first())
    }
}

/// CRC-32 as used by PNG chunks.
pub open spec fn crc32_spec(data: Seq<u8>) -> u32 {
    !crc_fold(0xFFFF_FFFFu32, data)
}

pub fn crc32(data: &[u8]) -> (r: u32)
    ensures
        r == crc32_spec(data@),
{
    let mut crc: u32 = 0xFFFF_FFFF;
    let mut i: usize = 0;
    assert(data@.skip(0) =~= data@);
    while i < data.len()
        invariant
            i <= data.len(),
            crc_fold(0xFFFF_FFFFu32, data@) == crc_fold(crc, data@.skip(i as int)),
        decreases data.len() - i,
    {
        let ghost start = crc ^ (data@[i as int] as u32);
        crc = crc ^ (data[i] as u32);
        let mut k: u32 = 0;
        while k < 8
            invariant
                k <= 8,
                crc_bits(start, 8) == crc_bits(crc, (8 - k) as nat),
            decreases 8 - k,
        {
            assert(crc & 1 == 0 || crc & 1 == 1) by (bit_vector);
            let mask = 0u32.wrapping_sub(crc & 1);
            crc = (crc >> 1) ^ (0xEDB8_8320u32 & mask);
            k += 1;
        }
        assert(data@.skip(i as int).drop_first() =~= data@.skip(i + 1));
        i += 1;
    }
    !crc
}

pub open spec fn adler_fold(a: u32, b: u32, data: Seq<u8>) -> (u32, u32)
    decreases data.len(),
{
    if data.len() == 0 {
        (a, b)
    } else {
        let a2 = ((a + data[0]) % 65521) as u32;
        let b2 = ((b + a2) % 65521) as u32;
        adler_fold(a2, b2, data.drop_first())
    }
}

/// Adler-32 as used by zlib streams.
pub open spec fn adler32_spec(data: Seq<u8>) -> u32 {
    let (a, b) = adler_fold(1, 0, data);
    (b << 16) | a
}

pub fn adler32(data: &[u8]) -> (r: u32)
    ensures
        r == adler32_spec(data@),
{
    let mut a: u32 = 1;
    let mut b: u32 = 0;
    let mut i: usize = 0;
    assert(data@.skip(0) =~= data@);
    while i < data.len()
        invariant
            i <= data.len(),
            a < 65521,
            b < 65521,
            adler_fold(1, 0, data@) == adler_fold(a, b, data@.skip(i as int)),
        decreases data.len() - i,
    {
        a = (a + data[i] as u32) % 65_521;
        b = (b + a) % 65_521;
        assert(data@.skip(i as int).drop_first() =~= data@.skip(i + 1));
        i += 1;
    }
    (b << 16) | a
}

// ---------------------------------------------------------------------------
// zlib / PNG
// ---------------------------------------------------------------------------

/// Stored deflate blocks of at most 65535 bytes; the last one is flagged.
pub open spec fn stored_blocks(data: Seq<u8>) -> Seq<u8>
    decreases data.len(),
{
    if data.len() == 0 {
        seq![]
    } else {
        let take: u16 = if data.len() < 65535 {
            data.len() as u16
        } else {
            65535u16
        };
        let last: u8 = if take as int >= data.len() {
            1
        } else {
            0
        };
        seq![last] + le16(take) + le16(!take) + data.take(take as int) + stored_blocks(
            data.skip(take as int),
        )
    }
}

/// A zlib stream holding `data` uncompressed.
pub open spec fn zlib_stored_spec(data: Seq<u8>) -> Seq<u8> {
    seq![0x78u8, 0x01u8] + (if data.len() == 0 {
        seq![0x01u8, 0x00u8, 0x00u8, 0xFFu8, 0xFFu8]
    } else {
        seq![]
    }) + stored_blocks(data) + be32(adler32_spec(data))
}

pub fn zlib_stored(data: &[u8]) -> (out: Vec<u8>)
    ensures
        out@ == zlib_stored_spec(data@),
{
    let mut out: Vec<u8> = Vec::new();
    out.push(0x78);
    out.push(0x01);
    if data.len() == 0 {
        out.push(0x01);
        out.push(0x00);
        out.push(0x00);
        out.push(0xFF);
        out.push(0xFF);
    }
    let ghost head = out@;
    let mut offset: usize = 0;
    assert(data@.skip(0) =~= data@);
    while offset < data.len()
        invariant
            offset <= data.len(),
            head + stored_blocks(data@) == out@ + stored_blocks(data@.skip(offset as int)),
        decreases data.len() - offset,
    {
        let remaining = data.len() - offset;
        let take: usize = if remaining < 65_535 {
            remaining
        } else {
            65_535
        };
        let last = offset + take >= data.len();
        let ghost tail = data@.skip(offset as int);
        let ghost before = out@;
        out.push(if last {
            0x01
        } else {
            0x00
        });
        push_le16(&mut out, take as u16);
        push_le16(&mut out, !(take as u16));
        push_bytes(&mut out, data, offset, offset + take);
        assert(data@.subrange(offset as int, offset + take) =~= tail.take(take as int));
        assert(tail.skip(take as int) =~= data@.skip(offset + take));
        offset += take;
        assert(stored_blocks(tail) == seq![
            if last {
                0x01u8
            } else {
                0x00u8
            },
        ] + le16(take as u16) + le16(!(take as u16)) + tail.take(take as int) + stored_blocks(
            data@.skip(offset as int),
        ));
        assert(before + stored_blocks(tail) =~= out@ + stored_blocks(data@.skip(offset as int)));
    }
    assert(data@.skip(data.len() as int) =~= Seq::<u8>::empty());
    push_be32(&mut out, adler32(data));
    assert(out@ =~= zlib_stored_spec(data@));
    out
}

/// A PNG chunk: length, type, payload and the CRC of type and payload.
pub open spec fn chunk_spec(kind: Seq<u8>, payload: Seq<u8>) -> Seq<u8> {
    be32(payload.len() as u32) + kind + payload + be32(crc32_spec(kind + payload))
}

pub fn push_chunk(out: &mut Vec<u8>, kind: &[u8; 4], payload: &[u8])
    ensures
        final(out)@ == old(out)@ + chunk_spec(kind@, payload@),
{
    push_be32(out, payload.len() as u32);
    push_bytes(out, kind, 0, 4);
    push_bytes(out, payload, 0, payload.len());
    let mut crc_input: Vec<u8> = Vec::new();
    push_bytes(&mut crc_input, kind, 0, 4);
    push_bytes(&mut crc_input, payload, 0, payload.len());
    assert(kind@.subrange(0, 4) =~= kind@);
    assert(payload@.subrange(0, payload@.len() as int) =~= payload@);
    assert(crc_input@ =~= kind@ + payload@);
    push_be32(out, crc32(crc_input.as_slice()));
    assert(final(out)@ =~= old(out)@ + chunk_spec(kind@, payload@));
}

/// Scanlines with filter type 0 in front of every row.
pub open spec fn png_raw(rgba: Seq<u8>, width: nat, rows: nat) -> Seq<u8>
    decreases rows,
{
    if rows == 0 {
        seq![]
    } else {
        png_raw(rgba, width, (rows - 1) as nat) + seq![0u8] + rgba.subrange(
            ((rows - 1) * width * 4) as int,
            (rows * width * 4) as int,
        )
    }
}

pub open spec fn png_signature() -> Seq<u8> {
    seq![0x89u8, 0x50u8, 0x4Eu8, 0x47u8, 0x0Du8, 0x0Au8, 0x1Au8, 0x0Au8]
}

pub open spec fn ihdr_spec(width: u32, height: u32) -> Seq<u8> {
    be32(width) + be32(height) + seq![8u8, 6u8, 0u8, 0u8, 0u8]
}

/// An RGBA PNG: signature, `IHDR`, one `IDAT` with stored blocks, `IEND`.
pub open spec fn png_spec(rgba: Seq<u8>, width: u32, height: u32) -> Seq<u8> {
    png_signature() + chunk_spec(seq![73u8, 72u8, 68u8, 82u8], ihdr_spec(width, height))
        + chunk_spec(
        seq![73u8, 68u8, 65u8, 84u8],
        zlib_stored_spec(png_raw(rgba, width as nat, height as nat)),
    ) + chunk_spec(seq![73u8, 69u8, 78u8, 68u8], seq![])
}

pub fn encode_png(rgba: &[u8], width: u32, height: u32) -> (out: Vec<u8>)
    requires
        rgba@.len() == width * height * 4,
        width * height * 4 <= u32::MAX,
    ensures
        out@ == png_spec(rgba@, width, height),
{
    let mut raw: Vec<u8> = Vec::new();
    let mut row: u32 = 0;
    while row < height
        invariant
            row <= height,
            rgba@.len() == width * height * 4,
            width * height * 4 <= u32::MAX,
            raw@ == png_raw(rgba@, width as nat, row as nat),
        decreases height - row,
    {
        proof {
            vstd::arithmetic::mul::lemma_mul_inequality(row as int + 1, height as int, width as int);
            vstd::arithmetic::mul::lemma_mul_is_distributive_add_other_way(
                width as int,
                row as int,
                1,
            );
        }
        assert((row + 1) * width * 4 <= width * height * 4) by (nonlinear_arith)
            requires
                row < height,
        ;
        assert((row + 1) * width * 4 == row * width * 4 + width * 4) by (nonlinear_arith);
        raw.push(0);
        let start = (row * width * 4) as usize;
        push_bytes(&mut raw, rgba, start, start + (width * 4) as usize);
        row += 1;
    }
    let mut out: Vec<u8> = Vec::new();
    out.push(0x89);
    out.push(0x50);
    out.push(0x4E);
    out.push(0x47);
    out.push(0x0D);
    out.push(0x0A);
    out.push(0x1A);
    out.push(0x0A);
    let mut ihdr: Vec<u8> = Vec::new();
    push_be32(&mut ihdr, width);
    push_be32(&mut ihdr, height);
    ihdr.push(8);
    ihdr.push(6);
    ihdr.push(0);
    ihdr.push(0);
    ihdr.push(0);
    assert(ihdr@ =~= ihdr_spec(width, height));
    let ihdr_kind: [u8; 4] = [73, 72, 68, 82];
    let idat_kind: [u8; 4] = [73, 68, 65, 84];
    let iend_kind: [u8; 4] = [73, 69, 78, 68];
    assert(ihdr_kind@ =~= seq![73u8, 72u8, 68u8, 82u8]);
    assert(idat_kind@ =~= seq![73u8, 68u8, 65u8, 84u8]);
    assert(iend_kind@ =~= seq![73u8, 69u8, 78u8, 68u8]);
    push_chunk(&mut out, &ihdr_kind, ihdr.as_slice());
    let z = zlib_stored(raw.as_slice());
    push_chunk(&mut out, &idat_kind, z.as_slice());
    let empty: Vec<u8> = Vec::new();
    push_chunk(&mut out, &iend_kind, empty.as_slice());
    assert(out@ =~= png_spec(rgba@, width, height));
    out
}

// ---------------------------------------------------------------------------
// ICO container
// ---------------------------------------------------------------------------

/// Sizes of the images in the application's ICO file.
pub const ICO_SIZES: [u32; 6] = [16, 32, 48, 64, 128, 256];

/// Pixel `col` of row `row`, reordered from RGBA to BGRA.
pub open spec fn bgra(rgba: Seq<u8>, size: nat, row: nat, col: nat) -> Seq<u8> {
    let i = ((row * size + col) * 4) as int;
    seq![rgba[i + 2], rgba[i + 1], rgba[i], rgba[i + 3]]
}

pub open spec fn bgra_row(rgba: Seq<u8>, size: nat, row: nat, cols: nat) -> Seq<u8>
    decreases cols,
{
    if cols == 0 {
        seq![]
    } else {
        bgra_row(rgba, size, row, (cols - 1) as nat) + bgra(rgba, size, row, (cols - 1) as nat)
    }
}

/// The last `rows` rows of the image, bottom row first.
pub open spec fn bgra_rows(rgba: Seq<u8>, size: nat, rows: nat) -> Seq<u8>
    decreases rows,
{
    if rows == 0 || rows > size {
        seq![]
    } else {
        bgra_rows(rgba, size, (rows - 1) as nat) + bgra_row(rgba, size, (size - rows) as nat, size)
    }
}

pub open spec fn mask_len(size: nat) -> nat {
    (((size + 31) / 32) * 4) * size
}

/// BITMAPINFOHEADER, bottom-up BGRA pixels and an all-opaque AND mask.
pub open spec fn dib_spec(rgba: Seq<u8>, size: u32) -> Seq<u8> {
    le32(40) + le32(size) + le32((size * 2) as u32) + le16(1) + le16(32) + le32(0) + le32(
        (size * size * 4) as u32,
    ) + le32(2835) + le32(2835) + le32(0) + le32(0) + bgra_rows(rgba, size as nat, size as nat)
        + Seq::new(mask_len(size as nat), |i: int| 0u8)
}

pub fn dib_bytes(rgba: &[u8], size: u32) -> (out: Vec<u8>)
    requires
        rgba@.len() == size * size * 4,
        size * size * 4 <= u32::MAX,
        size * 2 <= i32::MAX,
    ensures
        out@ == dib_spec(rgba@, size),
{
    let pixel_bytes = size * size * 4;
    let mut out: Vec<u8> = Vec::new();
    push_le32(&mut out, 40);
    push_le32(&mut out, size);
    push_le32(&mut out, size * 2);
    push_le16(&mut out, 1);
    push_le16(&mut out, 32);
    push_le32(&mut out, 0);
    push_le32(&mut out, pixel_bytes);
    push_le32(&mut out, 2835);
    push_le32(&mut out, 2835);
    push_le32(&mut out, 0);
    push_le32(&mut out, 0);
    let ghost header = out@;
    let mut done: u32 = 0;
    while done < size
        invariant
            done <= size,
            rgba@.len() == size * size * 4,
            size * size * 4 <= u32::MAX,
            out@ == header + bgra_rows(rgba@, size as nat, done as nat),
        decreases size - done,
    {
        let row = size - done - 1;
        let ghost row_start = out@;
        let mut col: u32 = 0;
        while col < size
            invariant
                col <= size,
                row < size,
                rgba@.len() == size * size * 4,
                size * size * 4 <= u32::MAX,
                out@ == row_start + bgra_row(rgba@, size as nat, row as nat, col as nat),
            decreases size - col,
        {
            assert((row * size + col) * 4 + 3 < size * size * 4) by (nonlinear_arith)
                requires
                    row < size,
                    col < size,
            ;
            let index = ((row * size + col) * 4) as usize;
            out.push(rgba[index + 2]);
            out.push(rgba[index + 1]);
            out.push(rgba[index]);
            out.push(rgba[index + 3]);
            col += 1;
            assert(out@ =~= row_start + bgra_row(rgba@, size as nat, row as nat, col as nat));
        }
        done += 1;
    }
    assert(size <= 32768) by (nonlinear_arith)
        requires
            size * size * 4 <= u32::MAX,
    ;
    let mask_stride = ((size + 31) / 32 * 4) as usize;
    assert(mask_stride <= 4100);
    assert(mask_stride * size <= 4100 * 32768) by (nonlinear_arith)
        requires
            mask_stride <= 4100,
            size <= 32768,
    ;
    let mask_bytes = mask_stride * size as usize;
    let ghost before_mask = out@;
    let mut k: usize = 0;
    while k < mask_bytes
        invariant
            k <= mask_bytes,
            out@ == before_mask + Seq::new(k as nat, |i: int| 0u8),
        decreases mask_bytes - k,
    {
        out.push(0);
        k += 1;
        assert(out@ =~= before_mask + Seq::new(k as nat, |i: int| 0u8));
    }
    assert(out@ =~= dib_spec(rgba@, size));
    out
}

pub open spec fn ico_dim(size: u32) -> u8 {
    if size >= 256 {
        0
    } else {
        size as u8
    }
}

/// Directory entries; `offset` is where the first image's data starts.
pub open spec fn ico_entries(sizes: Seq<u32>, data: Seq<Seq<u8>>, offset: int) -> Seq<u8>
    decreases sizes.len(),
{
    if sizes.len() == 0 || data.len() == 0 {
        seq![]
    } else {
        seq![ico_dim(sizes[0]), ico_dim(sizes[0]), 0u8, 0u8] + le16(1) + le16(32) + le32(
            data[0].len() as u32,
        ) + le32(offset as u32) + ico_entries(
            sizes.drop_first(),
            data.drop_first(),
            offset + data[0].len(),
        )
    }
}

pub open spec fn ico_data(data: Seq<Seq<u8>>) -> Seq<u8>
    decreases data.len(),
{
    if data.len() == 0 {
        seq![]
    } else {
        data[0] + ico_data(data.drop_first())
    }
}

pub open spec fn total_len(data: Seq<Seq<u8>>) -> nat
    decreases data.len(),
{
    if data.len() == 0 {
        0
    } else {
        data[0].len() + total_len(data.drop_first())
    }
}

/// ICO header, directory and image data.
pub open spec fn ico_spec(sizes: Seq<u32>, data: Seq<Seq<u8>>) -> Seq<u8> {
    le16(0) + le16(1) + le16(data.len() as u16) + ico_entries(sizes, data, (6 + 16 * data.len()) as int)
        + ico_data(data)
}

pub open spec fn dib_images(sizes: Seq<u32>, rgba: Seq<Vec<u8>>) -> Seq<Seq<u8>> {
    Seq::new(sizes.len(), |i: int| dib_spec(rgba[i]@, sizes[i]))
}

pub open spec fn ico_image_ok(size: u32, rgba: Seq<u8>) -> bool {
    &&& rgba.len() == size * size * 4
    &&& size * size * 4 <= u32::MAX
    &&& size * 2 <= i32::MAX
}

/// The ICO file for images of the given sizes (RGBA pixels, square).
pub fn build_ico(sizes: &Vec<u32>, rgba: &Vec<Vec<u8>>) -> (out: Vec<u8>)
    requires
        sizes.len() == rgba.len(),
        sizes.len() <= 4096,
        forall|i: int| 0 <= i < sizes.len() ==> ico_image_ok(sizes[i], #[trigger] rgba[i]@),
        6 + 16 * sizes.len() + total_len(dib_images(sizes@, rgba@)) <= u32::MAX,
    ensures
        out@ == ico_spec(sizes@, dib_images(sizes@, rgba@)),
{
    let n = sizes.len();
    let ghost images = dib_images(sizes@, rgba@);
    let mut dibs: Vec<Vec<u8>> = Vec::new();
    let mut i: usize = 0;
    while i < n
        invariant
            i <= n == sizes.len() == rgba.len(),
            forall|k: int| 0 <= k < sizes.len() ==> ico_image_ok(sizes[k], #[trigger] rgba[k]@),
            dibs.len() == i,
            forall|k: int| 0 <= k < i ==> (#[trigger] dibs@[k])@ == images[k],
            images == dib_images(sizes@, rgba@),
        decreases n - i,
    {
        let d = dib_bytes(rgba[i].as_slice(), sizes[i]);
        dibs.push(d);
        i += 1;
    }
    let ghost data = dibs@.map_values(|d: Vec<u8>| d@);
    assert(data =~= images);
    let mut out: Vec<u8> = Vec::new();
    push_le16(&mut out, 0);
    push_le16(&mut out, 1);
    push_le16(&mut out, n as u16);
    let ghost header = out@;
    let base: u32 = (6 + 16 * n) as u32;
    let mut offset: u32 = base;
    let mut j: usize = 0;
    assert(data.skip(0) =~= data);
    assert(sizes@.skip(0) =~= sizes@);
    while j < n
        invariant
            j <= n == dibs.len() == sizes.len(),
            data == dibs@.map_values(|d: Vec<u8>| d@),
            base == 6 + 16 * n,
            offset + total_len(data.skip(j as int)) == base + total_len(data),
            base + total_len(data) <= u32::MAX,
            header + ico_entries(sizes@, data, base as int) == out@ + ico_entries(
                sizes@.skip(j as int),
                data.skip(j as int),
                offset as int,
            ),
        decreases n - j,
    {
        let size = sizes[j];
        let len = dibs[j].len();
        assert(data.skip(j as int)[0] == data[j as int]);
        assert(data.skip(j as int).drop_first() =~= data.skip(j + 1));
        assert(sizes@.skip(j as int).drop_first() =~= sizes@.skip(j + 1));
        let ghost before = out@;
        let dimension: u8 = if size >= 256 {
            0
        } else {
            size as u8
        };
        out.push(dimension);
        out.push(dimension);
        out.push(0);
        out.push(0);
        push_le16(&mut out, 1);
        push_le16(&mut out, 32);
        push_le32(&mut out, len as u32);
        push_le32(&mut out, offset);
        let ghost entry = seq![dimension, dimension, 0u8, 0u8] + le16(1) + le16(32) + le32(
            len as u32,
        ) + le32(offset);
        assert(out@ =~= before + entry);
        offset = offset + len as u32;
        j += 1;
    }
    let ghost before_data = out@;
    let mut k: usize = 0;
    assert(data.skip(0) =~= data);
    while k < n
        invariant
            k <= n == dibs.len(),
            data == dibs@.map_values(|d: Vec<u8>| d@),
            ico_data(data) =~= (out@.skip(before_data.len() as int)) + ico_data(
                data.skip(k as int),
            ),
            out@.take(before_data.len() as int) == before_data,
            before_data.len() <= out@.len(),
        decreases n - k,
    {
        let ghost prev = out@;
        push_bytes(&mut out, dibs[k].as_slice(), 0, dibs[k].len());
        assert(dibs[k as int]@.subrange(0, dibs[k as int]@.len() as int) =~= dibs[k as int]@);
        assert(data.skip(k as int).drop_first() =~= data.skip(k + 1));
        assert(out@.skip(before_data.len() as int) =~= prev.skip(before_data.len() as int)
            + dibs[k as int]@);
        assert(out@.take(before_data.len() as int) =~= before_data);
        k += 1;
    }
    assert(data.skip(n as int) =~= Seq::<Seq<u8>>::empty());
    assert(sizes@.skip(n as int) =~= Seq::<u32>::empty());
    assert(out@ =~= before_data + out@.skip(before_data.len() as int));
    assert(out@ =~= ico_spec(sizes@, data));
    out
}

} // verus!
