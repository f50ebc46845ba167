use bgone::engine::process_image;
use bgone::engine::trim_image;
use bgone::engine::ProcessImageError;
use bgone::engine::ProcessImageOptions;

fn png_from_rgba(width: u32, height: u32, data: Vec<u8>) -> Vec<u8> {
    let img: image::RgbaImage = image::ImageBuffer::from_raw(width, height, data).unwrap();
    let mut out = std::io::Cursor::new(Vec::new());
    img.write_to(&mut out, image::ImageFormat::Png).unwrap();
    out.into_inner()
}

fn decode_rgba(bytes: &[u8]) -> (u32, u32, Vec<u8>) {
    let img = image::load_from_memory(bytes).unwrap().to_rgba8();
    let (w, h) = img.dimensions();
    (w, h, img.into_raw())
}

#[test]
fn removes_a_plain_background() {
    // 2x2: three white pixels and one pure red one.
    let data = vec![
        255, 255, 255, 255, 255, 255, 255, 255,
        255, 255, 255, 255, 255, 0, 0, 255,
    ];
    let input = png_from_rgba(2, 2, data);
    let options = ProcessImageOptions {
        input,
        foreground_colors: None,
        background_color: Some("#ffffff".to_string()),
        strict_mode: false,
        threshold_milli: None,
        trim: false,
    };
    let out = process_image(&options).unwrap();
    let (w, h, pixels) = decode_rgba(&out);
    assert_eq!((w, h), (2, 2));
    // The three background pixels are fully transparent.
    for p in 0..3 {
        assert_eq!(pixels[4 * p + 3], 0, "pixel {} should be transparent", p);
    }
    // The red pixel keeps its color at full opacity (red is a cube corner).
    assert_eq!(&pixels[12..16], &[255, 0, 0, 255]);
}

#[test]
fn strict_mode_keeps_declared_foreground() {
    // Black background, one declared red foreground, one pure red pixel.
    let data = vec![0, 0, 0, 255, 255, 0, 0, 255];
    let input = png_from_rgba(2, 1, data);
    let options = ProcessImageOptions {
        input,
        foreground_colors: Some(vec!["#ff0000".to_string()]),
        background_color: Some("#000000".to_string()),
        strict_mode: true,
        threshold_milli: None,
        trim: false,
    };
    let out = process_image(&options).unwrap();
    let (_, _, pixels) = decode_rgba(&out);
    assert_eq!(&pixels[0..4], &[0, 0, 0, 0]);
    assert_eq!(&pixels[4..8], &[255, 0, 0, 255]);
}

#[test]
fn reruns_are_byte_identical() {
    let data = vec![
        255, 255, 255, 255, 222, 120, 120, 255,
        255, 255, 255, 255, 255, 255, 255, 128,
    ];
    let input = png_from_rgba(2, 2, data);
    let make = |input: Vec<u8>| ProcessImageOptions {
        input,
        foreground_colors: Some(vec!["auto".to_string()]),
        background_color: None,
        strict_mode: false,
        threshold_milli: Some(50),
        trim: true,
    };
    let a = process_image(&make(png_from_rgba(
        2,
        2,
        vec![
            255, 255, 255, 255, 222, 120, 120, 255,
            255, 255, 255, 255, 255, 255, 255, 128,
        ],
    )))
    .unwrap();
    let b = process_image(&make(input)).unwrap();
    assert_eq!(a, b);
}

#[test]
fn rejects_bad_color_strings() {
    let input = png_from_rgba(1, 1, vec![1, 2, 3, 255]);
    let options = ProcessImageOptions {
        input: input.clone(),
        foreground_colors: None,
        background_color: Some("#zzz".to_string()),
        strict_mode: false,
        threshold_milli: None,
        trim: false,
    };
    assert!(matches!(
        process_image(&options),
        Err(ProcessImageError::InvalidBackgroundColor(_))
    ));
    let options2 = ProcessImageOptions {
        input,
        foreground_colors: Some(vec!["auto".to_string(), "nope".to_string()]),
        background_color: None,
        strict_mode: false,
        threshold_milli: None,
        trim: false,
    };
    assert!(matches!(
        process_image(&options2),
        Err(ProcessImageError::InvalidForegroundColor(_))
    ));
}

#[test]
fn rejects_undecodable_input() {
    let options = ProcessImageOptions {
        input: vec![1, 2, 3, 4],
        foreground_colors: None,
        background_color: None,
        strict_mode: false,
        threshold_milli: None,
        trim: false,
    };
    assert!(matches!(process_image(&options), Err(ProcessImageError::Decode(_))));
}

#[test]
fn trims_encoded_images() {
    // 3x1: transparent, opaque, transparent.
    let data = vec![0, 0, 0, 0, 9, 8, 7, 255, 0, 0, 0, 0];
    let input = png_from_rgba(3, 1, data);
    let out = trim_image(&input).unwrap();
    let (w, h, pixels) = decode_rgba(&out);
    assert_eq!((w, h), (1, 1));
    assert_eq!(&pixels[..], &[9, 8, 7, 255]);
}
