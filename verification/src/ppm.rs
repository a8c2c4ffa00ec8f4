use vstd::prelude::*;

verus! {

/// The three channels of a pixel after gamma encoding, each from 0 to 255.
pub type Rgb = (u8, u8, u8);

/// The decimal digits of `n` in ASCII, without leading zeros.
pub open spec fn decimal(n: nat) -> Seq<u8>
    decreases n,
{
    if n < 10 {
        seq![(48 + n) as u8]
    } else {
        decimal(n / 10).push((48 + n % 10) as u8)
    }
}

/// The header: the magic number, the width and the height, and the largest
/// channel value.
pub open spec fn header(width: nat, height: nat) -> Seq<u8> {
    seq![80u8, 51u8, 10u8] + decimal(width) + seq![32u8] + decimal(height) + seq![
        10u8,
        50u8,
        53u8,
        53u8,
        10u8,
    ]
}

/// The line of one pixel: its three channels with a space between them.
pub open spec fn pixel_line(pixel: Rgb) -> Seq<u8> {
    decimal(pixel.0 as nat) + seq![32u8] + decimal(pixel.1 as nat) + seq![32u8] + decimal(
        pixel.2 as nat,
    ) + seq![10u8]
}

/// The lines of the first `count` pixels of row `y`, from left to right.
pub open spec fn row_text(pixels: Seq<Rgb>, width: nat, y: nat, count: nat) -> Seq<u8>
    decreases count,
{
    if count == 0 {
        Seq::empty()
    } else {
        row_text(pixels, width, y, (count - 1) as nat) + pixel_line(
            pixels[y * width + count - 1],
        )
    }
}

/// The lines of the `count` uppermost rows of the image. The file begins
/// with the row that is stored last.
pub open spec fn rows_text(pixels: Seq<Rgb>, width: nat, height: nat, count: nat) -> Seq<u8>
    decreases count,
{
    if count == 0 || count > height {
        Seq::empty()
    } else {
        rows_text(pixels, width, height, (count - 1) as nat) + row_text(
            pixels,
            width,
            (height - count) as nat,
            width,
        )
    }
}

/// The whole file: the header, then one line for each pixel.
pub open spec fn file_text(pixels: Seq<Rgb>, width: nat, height: nat) -> Seq<u8> {
    header(width, height) + rows_text(pixels, width, height, height)
}

/// How many line feeds a text holds.
pub open spec fn line_feeds(text: Seq<u8>) -> nat
    decreases text.len(),
{
    if text.len() == 0 {
        0
    } else {
        line_feeds(text.drop_last()) + (if text.last() == 10u8 {
            1nat
        } else {
            0nat
        })
    }
}

fn push_decimal(out: &mut Vec<u8>, n: u32)
    ensures
        final(out)@ == old(out)@ + decimal(n as nat),
    decreases n,
{
    if n >= 10 {
        push_decimal(out, n / 10);
    }
    let digit: u8 = (n % 10) as u8;
    out.push(48u8 + digit);
    proof {
        assert(final(out)@ =~= old(out)@ + decimal(n as nat));
    }
}

fn push_pixel(out: &mut Vec<u8>, pixel: Rgb)
    ensures
        final(out)@ == old(out)@ + pixel_line(pixel),
{
    push_decimal(out, pixel.0 as u32);
    out.push(32u8);
    push_decimal(out, pixel.1 as u32);
    out.push(32u8);
    push_decimal(out, pixel.2 as u32);
    out.push(10u8);
    proof {
        assert(final(out)@ =~= old(out)@ + pixel_line(pixel));
    }
}

/// The text of the image as a plain PPM file. `pixels` holds the image row
/// by row; the file lists the rows from the last to the first.
pub fn encode(size: (u32, u32), pixels: &Vec<Rgb>) -> (text: Vec<u8>)
    requires
        pixels@.len() == size.0 * size.1,
    ensures
        text@ == file_text(pixels@, size.0 as nat, size.1 as nat),
{
    let width: u32 = size.0;
    let height: u32 = size.1;
    let mut out: Vec<u8> = Vec::new();
    out.push(80u8);
    out.push(51u8);
    out.push(10u8);
    push_decimal(&mut out, width);
    out.push(32u8);
    push_decimal(&mut out, height);
    out.push(10u8);
    out.push(50u8);
    out.push(53u8);
    out.push(53u8);
    out.push(10u8);
    assert(out@ =~= header(width as nat, height as nat));
    let mut done: u32 = 0;
    while done < height
        invariant
            done <= height,
            width == size.0,
            height == size.1,
            pixels@.len() == width * height,
            out@ == header(width as nat, height as nat) + rows_text(
                pixels@,
                width as nat,
                height as nat,
                done as nat,
            ),
        decreases height - done,
    {
        let y: u32 = height - 1 - done;
        let ghost before = out@;
        let mut x: u32 = 0;
        while x < width
            invariant
                x <= width,
                y < height,
                pixels@.len() == width * height,
                out@ == before + row_text(pixels@, width as nat, y as nat, x as nat),
            decreases width - x,
        {
            proof {
                assert(0 <= y * width + x < width * height) by (nonlinear_arith)
                    requires
                        0 <= x < width,
                        0 <= y < height,
                ;
                assert(y * width + x <= u64::MAX) by (nonlinear_arith)
                    requires
                        0 <= x <= 0xffff_ffff,
                        0 <= y <= 0xffff_ffff,
                        0 <= width <= 0xffff_ffff,
                ;
            }
            let index: u64 = y as u64 * width as u64 + x as u64;
            let len: usize = pixels.len();
            assert(index < len);
            push_pixel(&mut out, pixels[index as usize]);
            x = x + 1;
            proof {
                assert(out@ =~= before + row_text(pixels@, width as nat, y as nat, x as nat));
            }
        }
        done = done + 1;
        proof {
            assert(out@ =~= header(width as nat, height as nat) + rows_text(
                pixels@,
                width as nat,
                height as nat,
                done as nat,
            ));
        }
    }
    out
}

proof fn lemma_line_feeds_concat(a: Seq<u8>, b: Seq<u8>)
    ensures
        line_feeds(a + b) == line_feeds(a) + line_feeds(b),
    decreases b.len(),
{
    if b.len() == 0 {
        assert(a + b =~= a);
    } else {
        assert((a + b).drop_last() =~= a + b.drop_last());
        lemma_line_feeds_concat(a, b.drop_last());
    }
}

proof fn lemma_line_feeds_one(b: u8)
    ensures
        line_feeds(seq![b]) == (if b == 10u8 {
            1nat
        } else {
            0nat
        }),
{
    assert(seq![b].drop_last() =~= Seq::<u8>::empty());
    assert(line_feeds(seq![b].drop_last()) == 0);
}

proof fn lemma_decimal_has_no_line_feed(n: nat)
    ensures
        line_feeds(decimal(n)) == 0,
    decreases n,
{
    if n < 10 {
        lemma_line_feeds_one((48 + n) as u8);
    } else {
        lemma_decimal_has_no_line_feed(n / 10);
        assert(decimal(n).drop_last() =~= decimal(n / 10));
    }
}

proof fn lemma_pixel_line_feeds(pixel: Rgb)
    ensures
        line_feeds(pixel_line(pixel)) == 1,
{
    let a = decimal(pixel.0 as nat);
    let b = decimal(pixel.1 as nat);
    let c = decimal(pixel.2 as nat);
    let sp = seq![32u8];
    let nl = seq![10u8];
    lemma_decimal_has_no_line_feed(pixel.0 as nat);
    lemma_decimal_has_no_line_feed(pixel.1 as nat);
    lemma_decimal_has_no_line_feed(pixel.2 as nat);
    lemma_line_feeds_one(32u8);
    lemma_line_feeds_one(10u8);
    lemma_line_feeds_concat(a, sp);
    lemma_line_feeds_concat(a + sp, b);
    lemma_line_feeds_concat(a + sp + b, sp);
    lemma_line_feeds_concat(a + sp + b + sp, c);
    lemma_line_feeds_concat(a + sp + b + sp + c, nl);
}

proof fn lemma_row_line_feeds(pixels: Seq<Rgb>, width: nat, y: nat, count: nat)
    ensures
        line_feeds(row_text(pixels, width, y, count)) == count,
    decreases count,
{
    if count > 0 {
        lemma_row_line_feeds(pixels, width, y, (count - 1) as nat);
        lemma_pixel_line_feeds(pixels[y * width + count - 1]);
        lemma_line_feeds_concat(
            row_text(pixels, width, y, (count - 1) as nat),
            pixel_line(pixels[y * width + count - 1]),
        );
    }
}

proof fn lemma_rows_line_feeds(pixels: Seq<Rgb>, width: nat, height: nat, count: nat)
    requires
        count <= height,
    ensures
        line_feeds(rows_text(pixels, width, height, count)) == count * width,
    decreases count,
{
    if count > 0 {
        lemma_rows_line_feeds(pixels, width, height, (count - 1) as nat);
        lemma_row_line_feeds(pixels, width, (height - count) as nat, width);
        lemma_line_feeds_concat(
            rows_text(pixels, width, height, (count - 1) as nat),
            row_text(pixels, width, (height - count) as nat, width),
        );
        assert((count - 1) * width + width == count * width) by (nonlinear_arith);
    } else {
        assert(count * width == 0) by (nonlinear_arith)
            requires
                count == 0,
        ;
    }
}

/// A file has three lines of header and then one line for each pixel of the
/// image, whatever the pixels hold.
pub proof fn lemma_one_line_per_pixel(pixels: Seq<Rgb>, width: nat, height: nat)
    ensures
        line_feeds(header(width, height)) == 3,
        line_feeds(file_text(pixels, width, height)) == 3 + width * height,
        header(width, height).is_prefix_of(file_text(pixels, width, height)),
{
    let w = decimal(width);
    let h = decimal(height);
    let p3 = seq![80u8, 51u8, 10u8];
    let sp = seq![32u8];
    let tail = seq![10u8, 50u8, 53u8, 53u8, 10u8];
    lemma_decimal_has_no_line_feed(width);
    lemma_decimal_has_no_line_feed(height);
    lemma_line_feeds_one(32u8);
    assert(line_feeds(p3) == 1) by {
        lemma_line_feeds_one(80u8);
        lemma_line_feeds_one(51u8);
        lemma_line_feeds_one(10u8);
        lemma_line_feeds_concat(seq![80u8], seq![51u8]);
        lemma_line_feeds_concat(seq![80u8] + seq![51u8], seq![10u8]);
        assert(p3 =~= seq![80u8] + seq![51u8] + seq![10u8]);
    }
    assert(line_feeds(tail) == 2) by {
        lemma_line_feeds_one(10u8);
        lemma_line_feeds_one(50u8);
        lemma_line_feeds_one(53u8);
        lemma_line_feeds_concat(seq![10u8], seq![50u8]);
        lemma_line_feeds_concat(seq![10u8] + seq![50u8], seq![53u8]);
        lemma_line_feeds_concat(seq![10u8] + seq![50u8] + seq![53u8], seq![53u8]);
        lemma_line_feeds_concat(seq![10u8] + seq![50u8] + seq![53u8] + seq![53u8], seq![10u8]);
        assert(tail =~= seq![10u8] + seq![50u8] + seq![53u8] + seq![53u8] + seq![10u8]);
    }
    lemma_line_feeds_concat(p3, w);
    lemma_line_feeds_concat(p3 + w, sp);
    lemma_line_feeds_concat(p3 + w + sp, h);
    lemma_line_feeds_concat(p3 + w + sp + h, tail);
    lemma_rows_line_feeds(pixels, width, height, height);
    lemma_line_feeds_concat(header(width, height), rows_text(pixels, width, height, height));
    assert(height * width == width * height) by (nonlinear_arith);
}

} // verus!
