//! The whole-image pipeline: decode, resolve the background and foreground
//! colors, transform every pixel, optionally trim, and re-encode.

use vstd::prelude::*;

use crate::background::spec_detect_background;
use crate::color::spec_parse_foreground_spec;
use crate::color::spec_parse_hex_color;
use crate::color::ForegroundColorSpec;
use crate::color::ParseColorError;
use crate::color::RgbColor;
use crate::color::RgbaColor;
use crate::deduce::spec_deduce;
use crate::process::spec_composite;
use crate::process::spec_pixel_no_fg;
use crate::process::spec_pixel_strict;
use crate::process::spec_pixel_with_fg;
use crate::process::spec_trim_fn;
use crate::raster::spec_decode_ok;
use crate::raster::spec_decoded_height;
use crate::raster::spec_decoded_rgba;
use crate::raster::spec_decoded_width;
use crate::raster::spec_encode_ok;
use crate::raster::spec_png_encode;

verus! {

/// Options of a whole-image run.
pub struct ProcessImageOptions {
    /// The encoded input image.
    pub input: Vec<u8>,
    /// The foreground colors to match; the token `auto` asks for deduction.
    pub foreground_colors: Option<Vec<String>>,
    /// The background color to remove; detected from the edges when absent.
    pub background_color: Option<String>,
    /// Restrict unmixing to the declared foreground colors only.
    pub strict_mode: bool,
    /// Closeness threshold in thousandths of a normalized unit; values
    /// above 1000 are clamped, absent means 50 (0.05).
    pub threshold_milli: Option<u32>,
    /// Crop the output to the bounding box of its visible pixels.
    pub trim: bool,
}

/// Why a whole-image run was rejected.
#[derive(Debug)]
pub enum ProcessImageError {
    /// The background color string did not parse.
    InvalidBackgroundColor(ParseColorError),
    /// A foreground color string did not parse.
    InvalidForegroundColor(ParseColorError),
    /// The input bytes did not decode to an image.
    Decode(String),
    /// The output image could not be encoded.
    Encode(String),
    /// The image or the foreground list is too large for this build.
    UnsupportedSize,
}

/// The RGBA pixels a raw byte buffer stands for.
pub open spec fn spec_rgba_pixels(data: Seq<u8>) -> Seq<RgbaColor> {
    Seq::new(
        (data.len() / 4) as nat,
        |i: int|
            (RgbaColor {
                r: data[4 * i],
                g: data[4 * i + 1],
                b: data[4 * i + 2],
                a: data[4 * i + 3],
            }),
    )
}

/// The color part of each pixel, alpha dropped.
pub open spec fn spec_rgb_only(pixels: Seq<RgbaColor>) -> Seq<RgbColor> {
    Seq::new(pixels.len(), |i: int| (RgbColor { r: pixels[i].r, g: pixels[i].g, b: pixels[i].b }))
}

/// The raw byte buffer a pixel sequence stands for.
pub open spec fn spec_rgba_bytes(pixels: Seq<RgbaColor>) -> Seq<u8> {
    Seq::new(
        (4 * pixels.len()) as nat,
        |i: int|
            {
                let p = pixels[i / 4];
                if i % 4 == 0 {
                    p.r
                } else if i % 4 == 1 {
                    p.g
                } else if i % 4 == 2 {
                    p.b
                } else {
                    p.a
                }
            },
    )
}

/// One pixel through the pipeline: composite onto the background, then
/// dispatch by mode.
pub open spec fn spec_transform_pixel(
    p: RgbaColor,
    fgs: Seq<RgbColor>,
    bg: RgbColor,
    strict: bool,
    t: int,
) -> RgbaColor {
    let o = spec_composite(p, bg);
    if strict {
        spec_pixel_strict(o, fgs, bg)
    } else if fgs.len() == 0 {
        spec_pixel_no_fg(o, bg)
    } else {
        spec_pixel_with_fg(o, fgs, bg, t)
    }
}

pub open spec fn spec_transformed(
    pixels: Seq<RgbaColor>,
    fgs: Seq<RgbColor>,
    bg: RgbColor,
    strict: bool,
    t: int,
) -> Seq<RgbaColor> {
    Seq::new(pixels.len(), |i: int| spec_transform_pixel(pixels[i], fgs, bg, strict, t))
}

/// The effective closeness threshold, in thousandths.
pub open spec fn spec_threshold_milli(o: Option<u32>) -> int {
    match o {
        Some(t) => if t > 1000 {
            1000
        } else {
            t as int
        },
        None => 50,
    }
}

/// The character sequences of the requested foreground strings.
pub open spec fn spec_fg_strings(o: Option<Vec<String>>) -> Seq<Seq<char>> {
    match o {
        Some(v) => v@.map_values(|s: String| s@),
        None => Seq::<Seq<char>>::empty(),
    }
}

/// Parse the whole foreground request list, stopping at the first error.
pub open spec fn spec_parse_fg_list(strs: Seq<Seq<char>>, i: int) -> Result<
    Seq<ForegroundColorSpec>,
    ParseColorError,
>
    decreases strs.len() - i,
{
    if i < 0 || i >= strs.len() {
        Ok(Seq::<ForegroundColorSpec>::empty())
    } else {
        match spec_parse_foreground_spec(strs[i]) {
            Ok(f) => match spec_parse_fg_list(strs, i + 1) {
                Ok(rest) => Ok(seq![f] + rest),
                Err(e) => Err(e),
            },
            Err(e) => Err(e),
        }
    }
}

/// The resolved background color, assuming its string (if any) parses.
pub open spec fn spec_resolved_background(options: ProcessImageOptions) -> RgbColor {
    let pixels = spec_rgba_pixels(spec_decoded_rgba(options.input@));
    match options.background_color {
        Some(s) => match spec_parse_hex_color(s@) {
            Ok(c) => c,
            Err(_) => (RgbColor { r: 0, g: 0, b: 0 }),
        },
        None => spec_detect_background(
            pixels,
            spec_decoded_width(options.input@),
            spec_decoded_height(options.input@),
            10,
        ),
    }
}

/// The parsed foreground requests, for a run whose strings all parse.
pub open spec fn spec_parsed_specs(options: ProcessImageOptions) -> Seq<ForegroundColorSpec> {
    match spec_parse_fg_list(spec_fg_strings(options.foreground_colors), 0) {
        Ok(s) => s,
        Err(_) => Seq::<ForegroundColorSpec>::empty(),
    }
}

/// The transformed (and optionally trimmed) pixel grid of a run, as a
/// function of the options alone.
pub open spec fn spec_engine_trimmed(options: ProcessImageOptions) -> (Seq<RgbaColor>, int, int) {
    let w = spec_decoded_width(options.input@);
    let h = spec_decoded_height(options.input@);
    let pixels = spec_rgba_pixels(spec_decoded_rgba(options.input@));
    let bg = spec_resolved_background(options);
    let t = spec_threshold_milli(options.threshold_milli);
    let fgs = spec_deduce(spec_rgb_only(pixels), spec_parsed_specs(options), bg, t);
    let outp = spec_transformed(pixels, fgs, bg, options.strict_mode, t);
    if options.trim {
        spec_trim_fn(outp, w, h)
    } else {
        (outp, w, h)
    }
}

/// The bytes a successful whole-image run returns, as a function of the
/// options alone.  Every step of the pipeline is deterministic, so two runs
/// with equal options return equal bytes.
pub open spec fn spec_engine_output(options: ProcessImageOptions) -> Seq<u8> {
    let trimmed = spec_engine_trimmed(options);
    spec_png_encode(trimmed.1, trimmed.2, spec_rgba_bytes(trimmed.0))
}

/// The decoded image has at least one pixel in each direction.
pub open spec fn spec_dims_ok(input: Seq<u8>) -> bool {
    spec_decoded_width(input) >= 1 && spec_decoded_height(input) >= 1
}

/// The decoded image stays within the pixel-count cap of this build.
pub open spec fn spec_pixel_count_ok(input: Seq<u8>) -> bool {
    spec_decoded_width(input) * spec_decoded_height(input) <= 0x100000000
}

/// The background string, when one is given, parses.
pub open spec fn spec_background_ok(options: ProcessImageOptions) -> bool {
    match options.background_color {
        Some(s) => spec_parse_hex_color(s@) is Ok,
        None => true,
    }
}

/// Every foreground request parses.
pub open spec fn spec_foregrounds_ok(options: ProcessImageOptions) -> bool {
    spec_parse_fg_list(spec_fg_strings(options.foreground_colors), 0) is Ok
}

/// The foreground list stays within the cap of this build.
pub open spec fn spec_foreground_count_ok(options: ProcessImageOptions) -> bool {
    spec_parsed_specs(options).len() <= 0x10000000
}

/// The transformed grid encodes as PNG.
pub open spec fn spec_engine_encode_ok(options: ProcessImageOptions) -> bool {
    let trimmed = spec_engine_trimmed(options);
    spec_encode_ok(trimmed.1, trimmed.2, spec_rgba_bytes(trimmed.0))
}

/// Exactly when a whole-image run succeeds: the input decodes to a
/// nonempty image within the size cap, every color string parses, the
/// foreground list is within its cap, and the result encodes.
pub open spec fn spec_run_ok(options: ProcessImageOptions) -> bool {
    &&& spec_decode_ok(options.input@)
    &&& spec_dims_ok(options.input@)
    &&& spec_pixel_count_ok(options.input@)
    &&& spec_background_ok(options)
    &&& spec_foregrounds_ok(options)
    &&& spec_foreground_count_ok(options)
    &&& spec_engine_encode_ok(options)
}

/// Two runs over the same options agree completely: whether a run succeeds
/// is `spec_run_ok`, a function of the options alone, and the bytes of a
/// successful run are `spec_engine_output`, another — so reruns succeed or
/// fail together, and successful reruns are byte-identical.
pub proof fn lemma_process_image_deterministic(
    options: ProcessImageOptions,
    r1: Result<Vec<u8>, ProcessImageError>,
    r2: Result<Vec<u8>, ProcessImageError>,
)
    requires
        r1 is Ok <==> spec_run_ok(options),
        r2 is Ok <==> spec_run_ok(options),
        r1 matches Ok(b) ==> b@ == spec_engine_output(options),
        r2 matches Ok(b) ==> b@ == spec_engine_output(options),
    ensures
        r1 is Ok <==> r2 is Ok,
        r1 is Ok ==> r1->Ok_0@ == r2->Ok_0@,
{
}

/// Group raw RGBA bytes into pixels.
pub fn rgba_from_bytes(data: &Vec<u8>) -> (r: Vec<RgbaColor>)
    requires
        data@.len() % 4 == 0,
    ensures
        r@ == spec_rgba_pixels(data@),
        r@.len() == data@.len() / 4,
{
    let mut out: Vec<RgbaColor> = Vec::new();
    let n = data.len() / 4;
    proof {
        vstd::arithmetic::div_mod::lemma_fundamental_div_mod(data@.len() as int, 4);
        vstd::std_specs::vec::axiom_spec_len(data);
    }
    let mut i: usize = 0;
    while i < n
        invariant
            data@.len() % 4 == 0,
            data@.len() <= usize::MAX,
            n == data@.len() / 4,
            4 * (n as int) == data@.len(),
            i <= n,
            out@.len() == i,
            forall|k: int| 0 <= k < i ==> out@[k] == spec_rgba_pixels(data@)[k],
        decreases n - i,
    {
        let p = RgbaColor {
            r: data[4 * i],
            g: data[4 * i + 1],
            b: data[4 * i + 2],
            a: data[4 * i + 3],
        };
        out.push(p);
        i = i + 1;
    }
    proof {
        assert(out@ =~= spec_rgba_pixels(data@));
    }
    out
}

/// Drop the alpha channel of each pixel.
pub fn rgb_from_rgba(pixels: &Vec<RgbaColor>) -> (r: Vec<RgbColor>)
    ensures
        r@ == spec_rgb_only(pixels@),
{
    let mut out: Vec<RgbColor> = Vec::new();
    let mut i: usize = 0;
    while i < pixels.len()
        invariant
            i <= pixels@.len(),
            out@.len() == i,
            forall|k: int| 0 <= k < i ==> out@[k] == spec_rgb_only(pixels@)[k],
        decreases pixels@.len() - i,
    {
        let p = pixels[i];
        out.push(RgbColor { r: p.r, g: p.g, b: p.b });
        i = i + 1;
    }
    proof {
        assert(out@ =~= spec_rgb_only(pixels@));
    }
    out
}

/// Flatten pixels back into raw RGBA bytes.
pub fn bytes_from_rgba(pixels: &Vec<RgbaColor>) -> (r: Vec<u8>)
    requires
        4 * pixels@.len() <= usize::MAX,
    ensures
        r@ == spec_rgba_bytes(pixels@),
        r@.len() == 4 * pixels@.len(),
{
    let mut out: Vec<u8> = Vec::new();
    let mut i: usize = 0;
    while i < pixels.len()
        invariant
            i <= pixels@.len(),
            4 * pixels@.len() <= usize::MAX,
            out@.len() == 4 * i,
            forall|k: int| 0 <= k < out@.len() ==> out@[k] == spec_rgba_bytes(pixels@)[k],
        decreases pixels@.len() - i,
    {
        let p = pixels[i];
        out.push(p.r);
        out.push(p.g);
        out.push(p.b);
        out.push(p.a);
        proof {
            vstd::arithmetic::div_mod::lemma_fundamental_div_mod_converse(
                4 * i as int, 4, i as int, 0,
            );
            vstd::arithmetic::div_mod::lemma_fundamental_div_mod_converse(
                4 * i as int + 1, 4, i as int, 1,
            );
            vstd::arithmetic::div_mod::lemma_fundamental_div_mod_converse(
                4 * i as int + 2, 4, i as int, 2,
            );
            vstd::arithmetic::div_mod::lemma_fundamental_div_mod_converse(
                4 * i as int + 3, 4, i as int, 3,
            );
        }
        i = i + 1;
    }
    proof {
        assert(out@ =~= spec_rgba_bytes(pixels@));
    }
    out
}

/// Transform every pixel of the grid independently.
pub fn process_pixels(
    pixels: &Vec<RgbaColor>,
    foreground_colors: &Vec<RgbColor>,
    background: &RgbColor,
    strict_mode: bool,
    threshold_milli: u32,
) -> (r: Vec<RgbaColor>)
    requires
        threshold_milli <= 1000,
    ensures
        r@ == spec_transformed(
            pixels@,
            foreground_colors@,
            *background,
            strict_mode,
            threshold_milli as int,
        ),
        r@.len() == pixels@.len(),
{
    let bg = *background;
    let mut out: Vec<RgbaColor> = Vec::new();
    let mut i: usize = 0;
    while i < pixels.len()
        invariant
            i <= pixels@.len(),
            bg == *background,
            threshold_milli <= 1000,
            out@.len() == i,
            forall|k: int|
                0 <= k < i ==> out@[k] == spec_transform_pixel(
                    pixels@[k],
                    foreground_colors@,
                    bg,
                    strict_mode,
                    threshold_milli as int,
                ),
        decreases pixels@.len() - i,
    {
        let p = pixels[i];
        let o = crate::process::composite_pixel_over_background(&p, &bg);
        let q = if strict_mode {
            crate::process::process_pixel_strict(&o, foreground_colors, &bg)
        } else if foreground_colors.len() == 0 {
            crate::process::process_pixel_non_strict_no_fg(&o, &bg)
        } else {
            crate::process::process_pixel_non_strict_with_fg(
                &o,
                foreground_colors,
                &bg,
                threshold_milli,
            )
        };
        out.push(q);
        i = i + 1;
    }
    proof {
        assert(out@ =~= spec_transformed(
            pixels@,
            foreground_colors@,
            bg,
            strict_mode,
            threshold_milli as int,
        ));
    }
    out
}

/// Parse every foreground request, stopping at the first failure.
pub fn parse_foreground_list(list: &Vec<String>) -> (r: Result<
    Vec<ForegroundColorSpec>,
    ParseColorError,
>)
    ensures
        ({
            let strs = list@.map_values(|s: String| s@);
            match r {
                Ok(v) => spec_parse_fg_list(strs, 0) == Ok::<_, ParseColorError>(v@),
                Err(e) => spec_parse_fg_list(strs, 0) == Err::<Seq<ForegroundColorSpec>, _>(e),
            }
        }),
{
    let ghost strs = list@.map_values(|s: String| s@);
    let mut out: Vec<ForegroundColorSpec> = Vec::new();
    let mut i: usize = 0;
    proof {
        assert(out@ =~= Seq::<ForegroundColorSpec>::empty());
    }
    while i < list.len()
        invariant
            i <= list@.len(),
            strs == list@.map_values(|s: String| s@),
            strs.len() == list@.len(),
            spec_parse_fg_list(strs, 0) == (match spec_parse_fg_list(strs, i as int) {
                Ok(rest) => Ok::<_, ParseColorError>(out@ + rest),
                Err(e) => Err(e),
            }),
        decreases list@.len() - i,
    {
        proof {
            assert(strs[i as int] == list@[i as int]@);
        }
        let ghost out0 = out@;
        match crate::color::parse_foreground_spec(list[i].as_str()) {
            Ok(f) => {
                out.push(f);
                proof {
                    assert(out@ =~= out0.push(f));
                    match spec_parse_fg_list(strs, i as int + 1) {
                        Ok(rest) => {
                            assert(out0 + (seq![f] + rest) =~= out@ + rest);
                        },
                        Err(_) => {},
                    }
                }
            },
            Err(e) => {
                return Err(e);
            },
        }
        i = i + 1;
    }
    proof {
        assert(spec_parse_fg_list(strs, list@.len() as int) == Ok::<_, ParseColorError>(Seq::<
            ForegroundColorSpec,
        >::empty()));
        assert(out@ + Seq::<ForegroundColorSpec>::empty() =~= out@);
    }
    Ok(out)
}

/// Remove the background of an encoded image and return it re-encoded,
/// with its opacity recovered per pixel.  The output bytes are a function
/// of the options alone, so runs are reproducible byte for byte.
pub fn process_image(options: &ProcessImageOptions) -> (r: Result<Vec<u8>, ProcessImageError>)
    ensures
        r is Ok <==> spec_run_ok(*options),
        ({
            match r {
                Ok(b) => b@ == spec_engine_output(*options),
                Err(ProcessImageError::Decode(_)) => !spec_decode_ok(options.input@)
                    || !spec_dims_ok(options.input@),
                Err(ProcessImageError::UnsupportedSize) => spec_decode_ok(options.input@)
                    && spec_dims_ok(options.input@) && (!spec_pixel_count_ok(options.input@) || (
                    spec_pixel_count_ok(options.input@) && spec_background_ok(*options)
                        && spec_foregrounds_ok(*options) && !spec_foreground_count_ok(*options))),
                Err(ProcessImageError::InvalidBackgroundColor(e)) => spec_decode_ok(options.input@)
                    && spec_dims_ok(options.input@) && spec_pixel_count_ok(options.input@)
                    && match options.background_color {
                    Some(s) => spec_parse_hex_color(s@) == Err::<RgbColor, _>(e),
                    None => false,
                },
                Err(ProcessImageError::InvalidForegroundColor(e)) => spec_decode_ok(options.input@)
                    && spec_dims_ok(options.input@) && spec_pixel_count_ok(options.input@)
                    && spec_background_ok(*options) && spec_parse_fg_list(
                    spec_fg_strings(options.foreground_colors),
                    0,
                ) == Err::<Seq<ForegroundColorSpec>, _>(e),
                Err(ProcessImageError::Encode(_)) => spec_decode_ok(options.input@)
                    && spec_dims_ok(options.input@) && spec_pixel_count_ok(options.input@)
                    && spec_background_ok(*options) && spec_foregrounds_ok(*options)
                    && spec_foreground_count_ok(*options) && !spec_engine_encode_ok(*options),
            }
        }),
{
    let (width, height, data) = match crate::raster::decode_rgba(&options.input) {
        Ok(t) => t,
        Err(m) => {
            return Err(ProcessImageError::Decode(m));
        },
    };
    proof {
        vstd::std_specs::vec::axiom_spec_len(&data);
        assert((width as int) * (height as int) * 4 == 4 * (width as int) * (height as int))
            by (nonlinear_arith);
        vstd::arithmetic::div_mod::lemma_fundamental_div_mod_converse(
            data@.len() as int,
            4,
            (width as int) * (height as int),
            0,
        );
    }
    let pixels = rgba_from_bytes(&data);
    proof {
        assert(pixels@.len() == (width as int) * (height as int));
    }
    if width == 0 || height == 0 {
        return Err(ProcessImageError::Decode("the image has no pixels".to_owned()));
    }
    if pixels.len() as u64 > 0x100000000u64 {
        return Err(ProcessImageError::UnsupportedSize);
    }
    let w = width as usize;
    let h = height as usize;
    proof {
        assert(pixels@.len() == w * h);
    }
    let background_color = match &options.background_color {
        Some(bg_hex) => match crate::color::parse_hex_color(bg_hex.as_str()) {
            Ok(c) => c,
            Err(e) => {
                return Err(ProcessImageError::InvalidBackgroundColor(e));
            },
        },
        None => crate::background::detect_background_color(&pixels, w, h),
    };
    let foreground_specs = match &options.foreground_colors {
        Some(list) => match parse_foreground_list(list) {
            Ok(v) => v,
            Err(e) => {
                return Err(ProcessImageError::InvalidForegroundColor(e));
            },
        },
        None => Vec::new(),
    };
    proof {
        if options.foreground_colors is None {
            assert(spec_parse_fg_list(spec_fg_strings(options.foreground_colors), 0) == Ok::<
                _,
                ParseColorError,
            >(Seq::<ForegroundColorSpec>::empty()));
            assert(foreground_specs@ =~= Seq::<ForegroundColorSpec>::empty());
        }
    }
    if foreground_specs.len() > 0x10000000 {
        return Err(ProcessImageError::UnsupportedSize);
    }
    let threshold_milli = match options.threshold_milli {
        Some(t) => if t > 1000 {
            1000
        } else {
            t
        },
        None => 50,
    };
    let rgb = rgb_from_rgba(&pixels);
    let foreground_colors = crate::deduce::deduce_unknown_colors(
        &rgb,
        &foreground_specs,
        &background_color,
        threshold_milli,
    );
    let processed = process_pixels(
        &pixels,
        &foreground_colors,
        &background_color,
        options.strict_mode,
        threshold_milli,
    );
    let (final_pixels, out_w, out_h): (Vec<RgbaColor>, usize, usize) = if options.trim {
        let t = crate::process::trim_to_content(&processed, w, h);
        proof {
            crate::process::lemma_trimmed_is_fn(
                processed@,
                w as int,
                h as int,
                t.0@,
                t.1 as int,
                t.2 as int,
            );
            crate::process::lemma_trim_size(
                processed@,
                w as int,
                h as int,
                t.0@,
                t.1 as int,
                t.2 as int,
            );
            assert(0 <= (t.1 as int) * (t.2 as int)) by (nonlinear_arith)
                requires
                    1 <= t.1 && 1 <= t.2,
            ;
            assert(t.0@.len() == (t.1 as int) * (t.2 as int));
        }
        t
    } else {
        proof {
            assert(processed@.len() == (w as int) * (h as int));
        }
        (processed, w, h)
    };
    proof {
        vstd::std_specs::vec::axiom_spec_len(&final_pixels);
        assert(final_pixels@.len() == (out_w as int) * (out_h as int));
        assert(4 * final_pixels@.len() <= usize::MAX);
    }
    let out_bytes = bytes_from_rgba(&final_pixels);
    proof {
        assert(out_w <= w && out_h <= h);
        assert(out_bytes@.len() == 4 * (out_w as int) * (out_h as int)) by (nonlinear_arith)
            requires
                out_bytes@.len() == 4 * final_pixels@.len(),
                final_pixels@.len() == (out_w as int) * (out_h as int),
        ;
        let tr = spec_engine_trimmed(*options);
        assert(final_pixels@ == tr.0 && out_w as int == tr.1 && out_h as int == tr.2);
        assert(out_bytes@ == spec_rgba_bytes(tr.0));
    }
    match crate::raster::encode_png(out_w as u32, out_h as u32, &out_bytes) {
        Ok(b) => Ok(b),
        Err(m) => Err(ProcessImageError::Encode(m)),
    }
}

/// Synchronous alias of the whole-image run, for hosts that distinguish a
/// blocking entry point.
pub fn process_image_sync(options: &ProcessImageOptions) -> (r: Result<Vec<u8>, ProcessImageError>)
    ensures
        r is Ok <==> spec_run_ok(*options),
        r matches Ok(b) ==> b@ == spec_engine_output(*options),
{
    process_image(options)
}

/// Crop an encoded image to the bounding box of its visible pixels and
/// return it re-encoded.
/// The trimmed grid of a trim-only run, as a function of the input bytes.
pub open spec fn spec_trim_only(input: Seq<u8>) -> (Seq<RgbaColor>, int, int) {
    spec_trim_fn(
        spec_rgba_pixels(spec_decoded_rgba(input)),
        spec_decoded_width(input),
        spec_decoded_height(input),
    )
}

/// Whether the trimmed grid of a trim-only run encodes as PNG.
pub open spec fn spec_trim_encode_ok(input: Seq<u8>) -> bool {
    let t = spec_trim_only(input);
    spec_encode_ok(t.1, t.2, spec_rgba_bytes(t.0))
}

pub fn trim_image(input: &Vec<u8>) -> (r: Result<Vec<u8>, ProcessImageError>)
    ensures
        r is Ok <==> spec_decode_ok(input@) && spec_trim_encode_ok(input@),
        match r {
            Ok(b) => ({
                let t = spec_trim_only(input@);
                b@ == spec_png_encode(t.1, t.2, spec_rgba_bytes(t.0))
            }),
            Err(ProcessImageError::Decode(_)) => !spec_decode_ok(input@),
            Err(ProcessImageError::Encode(_)) => spec_decode_ok(input@) && !spec_trim_encode_ok(
                input@,
            ),
            Err(_) => false,
        },
{
    let (width, height, data) = match crate::raster::decode_rgba(input) {
        Ok(t) => t,
        Err(m) => {
            return Err(ProcessImageError::Decode(m));
        },
    };
    proof {
        vstd::std_specs::vec::axiom_spec_len(&data);
        assert((width as int) * (height as int) * 4 == 4 * (width as int) * (height as int))
            by (nonlinear_arith);
        vstd::arithmetic::div_mod::lemma_fundamental_div_mod_converse(
            data@.len() as int,
            4,
            (width as int) * (height as int),
            0,
        );
    }
    let pixels = rgba_from_bytes(&data);
    proof {
        assert(pixels@.len() == (width as int) * (height as int));
    }
    let w = width as usize;
    let h = height as usize;
    let t = crate::process::trim_to_content(&pixels, w, h);
    proof {
        crate::process::lemma_trimmed_is_fn(
            pixels@,
            w as int,
            h as int,
            t.0@,
            t.1 as int,
            t.2 as int,
        );
        crate::process::lemma_trim_size(
            pixels@,
            w as int,
            h as int,
            t.0@,
            t.1 as int,
            t.2 as int,
        );
        vstd::std_specs::vec::axiom_spec_len(&t.0);
    }
    let (final_pixels, out_w, out_h) = t;
    let out_bytes = bytes_from_rgba(&final_pixels);
    proof {
        assert(out_bytes@.len() == 4 * (out_w as int) * (out_h as int)) by (nonlinear_arith)
            requires
                out_bytes@.len() == 4 * final_pixels@.len(),
                final_pixels@.len() == (out_w as int) * (out_h as int),
        ;
        let tr = spec_trim_only(input@);
        assert(final_pixels@ == tr.0 && out_w as int == tr.1 && out_h as int == tr.2);
        assert(out_bytes@ == spec_rgba_bytes(tr.0));
    }
    match crate::raster::encode_png(out_w as u32, out_h as u32, &out_bytes) {
        Ok(b) => Ok(b),
        Err(m) => Err(ProcessImageError::Encode(m)),
    }
}

} // verus!
