use dataset_pipeline::generator::{BatchItem, GeneratorConfig};
use dataset_pipeline::loader::{assemble_batch, load_batch, DecodePolicy, LoadedItem};
use dataset_pipeline::model::PipelineError;
use dataset_pipeline::pixels::{
    decode_rgb, materialize, materialize_decoded, parse_color_mode, ColorMode, Normalization,
    PixelBuffer, MAX_SIDE,
};

fn png_bytes_of(width: u32, height: u32, data: Vec<u8>) -> Vec<u8> {
    let picture = image::RgbImage::from_raw(width, height, data).unwrap();
    let mut bytes = Vec::new();
    image::DynamicImage::ImageRgb8(picture)
        .write_to(&mut std::io::Cursor::new(&mut bytes), image::ImageFormat::Png)
        .unwrap();
    bytes
}

fn ramp(len: usize) -> Vec<u8> {
    (0..len).map(|i| (i * 5 % 256) as u8).collect()
}

fn loading_config(width: u32, height: u32, color_mode: ColorMode) -> GeneratorConfig {
    GeneratorConfig {
        target_width: width,
        target_height: height,
        color_mode,
        normalization: Normalization::UnitInterval,
        batch_size: 2,
        shuffle: false,
        seed: 0,
    }
}

fn two_items() -> Vec<BatchItem> {
    vec![
        BatchItem { path: "A/0.png".to_string(), label_index: 0 },
        BatchItem { path: "B/1.png".to_string(), label_index: 1 },
    ]
}

#[test]
fn color_mode_is_read_from_its_name() {
    assert_eq!(parse_color_mode(&"rgb".to_string()), Some(ColorMode::Rgb));
    assert_eq!(parse_color_mode(&"grayscale".to_string()), Some(ColorMode::Grayscale));
    assert_eq!(parse_color_mode(&"RGB".to_string()), None);
    assert_eq!(parse_color_mode(&"gray".to_string()), None);
    assert_eq!(parse_color_mode(&"".to_string()), None);
    assert_eq!(ColorMode::Rgb.channels(), 3);
    assert_eq!(ColorMode::Grayscale.channels(), 1);
}

#[test]
fn buffer_needs_one_sample_per_channel_and_pixel() {
    assert!(PixelBuffer::from_raw(2, 3, ColorMode::Rgb, ramp(18)).is_some());
    assert!(PixelBuffer::from_raw(2, 3, ColorMode::Rgb, ramp(17)).is_none());
    assert!(PixelBuffer::from_raw(2, 3, ColorMode::Rgb, ramp(19)).is_none());
    assert!(PixelBuffer::from_raw(2, 3, ColorMode::Grayscale, ramp(6)).is_some());
    assert!(PixelBuffer::from_raw(0, 3, ColorMode::Rgb, Vec::new()).is_some());
    assert!(PixelBuffer::from_raw(4294967295, 4294967295, ColorMode::Rgb, Vec::new()).is_none());
}

#[test]
fn buffer_hands_out_what_it_holds() {
    let buffer = PixelBuffer::from_raw(2, 3, ColorMode::Rgb, ramp(18)).unwrap();
    assert_eq!(buffer.width(), 2);
    assert_eq!(buffer.height(), 3);
    assert_eq!(buffer.color_mode(), ColorMode::Rgb);
    assert_eq!(buffer.data(), &ramp(18));
    assert_eq!(buffer.tensor_shape(), (3, 2, 3));
    assert_eq!(buffer.into_data(), ramp(18));
}

#[test]
fn grayscale_takes_the_first_channel() {
    let buffer = PixelBuffer::from_raw(2, 1, ColorMode::Rgb, vec![10, 20, 30, 40, 50, 60]).unwrap();
    let gray = buffer.convert(ColorMode::Grayscale);
    assert_eq!(gray.color_mode(), ColorMode::Grayscale);
    assert_eq!(gray.tensor_shape(), (1, 2, 1));
    assert_eq!(gray.data(), &vec![10, 40]);
}

#[test]
fn rgb_repeats_the_intensity() {
    let buffer = PixelBuffer::from_raw(1, 2, ColorMode::Grayscale, vec![7, 9]).unwrap();
    let rgb = buffer.convert(ColorMode::Rgb);
    assert_eq!(rgb.color_mode(), ColorMode::Rgb);
    assert_eq!(rgb.data(), &vec![7, 7, 7, 9, 9, 9]);
}

#[test]
fn conversion_to_the_same_mode_changes_nothing() {
    let buffer = PixelBuffer::from_raw(2, 1, ColorMode::Rgb, vec![1, 2, 3, 4, 5, 6]).unwrap();
    assert_eq!(buffer.convert(ColorMode::Rgb).data(), &vec![1, 2, 3, 4, 5, 6]);
}

#[test]
fn resize_gives_the_size_asked_for() {
    let buffer = PixelBuffer::from_raw(4, 4, ColorMode::Rgb, ramp(48)).unwrap();
    let smaller = buffer.resize(2, 2).unwrap();
    assert_eq!((smaller.width(), smaller.height()), (2, 2));
    assert_eq!(smaller.data().len(), 12);
    let larger = buffer.resize(7, 5).unwrap();
    assert_eq!(larger.tensor_shape(), (5, 7, 3));
    assert_eq!(larger.data().len(), 105);
    let empty = buffer.resize(0, 5).unwrap();
    assert_eq!(empty.data().len(), 0);
}

#[test]
fn resize_of_a_flat_image_keeps_its_colour() {
    let flat: Vec<u8> = (0..27).map(|i| [200u8, 100, 50][i % 3]).collect();
    let buffer = PixelBuffer::from_raw(3, 3, ColorMode::Rgb, flat).unwrap();
    let resized = buffer.resize(6, 2).unwrap();
    for pixel in resized.data().chunks(3) {
        assert_eq!(pixel, &[200u8, 100, 50]);
    }
}

#[test]
fn resize_refuses_what_it_cannot_do() {
    let gray = PixelBuffer::from_raw(2, 2, ColorMode::Grayscale, ramp(4)).unwrap();
    assert!(gray.resize(2, 2).is_none());
    let empty = PixelBuffer::from_raw(0, 2, ColorMode::Rgb, Vec::new()).unwrap();
    assert!(empty.resize(2, 2).is_none());
    let flat = PixelBuffer::from_raw(2, 0, ColorMode::Rgb, Vec::new()).unwrap();
    assert!(flat.resize(2, 2).is_none());
}

#[test]
fn png_bytes_decode_to_their_pixels() {
    let data = ramp(2 * 3 * 3);
    let decoded = decode_rgb(&png_bytes_of(2, 3, data.clone())).unwrap();
    assert_eq!((decoded.width(), decoded.height()), (2, 3));
    assert_eq!(decoded.color_mode(), ColorMode::Rgb);
    assert_eq!(decoded.data(), &data);
}

#[test]
fn bytes_that_are_no_image_do_not_decode() {
    assert!(decode_rgb(&b"not an image".to_vec()).is_none());
    assert!(decode_rgb(&Vec::new()).is_none());
    let mut cut = png_bytes_of(4, 4, ramp(48));
    cut.truncate(20);
    assert!(decode_rgb(&cut).is_none());
}

#[test]
fn materialize_brings_an_image_to_size_and_mode() {
    let bytes = png_bytes_of(8, 6, ramp(8 * 6 * 3));
    let rgb = materialize(&bytes, 4, 3, ColorMode::Rgb).unwrap();
    assert_eq!(rgb.tensor_shape(), (3, 4, 3));
    let gray = materialize(&bytes, 4, 3, ColorMode::Grayscale).unwrap();
    assert_eq!(gray.tensor_shape(), (3, 4, 1));
    let firsts: Vec<u8> = rgb.data().chunks(3).map(|p| p[0]).collect();
    assert_eq!(gray.data(), &firsts);
    assert!(materialize(&b"garbage".to_vec(), 4, 3, ColorMode::Rgb).is_none());
}

#[test]
fn materialize_decoded_resizes_then_converts() {
    let decoded = PixelBuffer::from_raw(4, 4, ColorMode::Rgb, ramp(48)).unwrap();
    let out = materialize_decoded(&decoded, 2, 2, ColorMode::Grayscale).unwrap();
    let expected = decoded.resize(2, 2).unwrap().convert(ColorMode::Grayscale);
    assert_eq!(out, expected);
    let empty = PixelBuffer::from_raw(0, 0, ColorMode::Rgb, Vec::new()).unwrap();
    assert!(materialize_decoded(&empty, 2, 2, ColorMode::Rgb).is_none());
}

#[test]
fn missing_image_fails_the_batch_by_default() {
    let image = PixelBuffer::from_raw(1, 1, ColorMode::Rgb, vec![1, 2, 3]).unwrap();
    let out = assemble_batch(&two_items(), vec![Some(image), None], DecodePolicy::Abort);
    assert_eq!(out, Err(PipelineError::ItemDecodeError { path: "B/1.png".to_string() }));
}

#[test]
fn first_missing_image_is_the_one_reported() {
    let out = assemble_batch(&two_items(), vec![None, None], DecodePolicy::Abort);
    assert_eq!(out, Err(PipelineError::ItemDecodeError { path: "A/0.png".to_string() }));
}

#[test]
fn missing_image_is_left_out_when_skipping() {
    let image = PixelBuffer::from_raw(1, 1, ColorMode::Rgb, vec![1, 2, 3]).unwrap();
    let out = assemble_batch(&two_items(), vec![None, Some(image)], DecodePolicy::Skip).unwrap();
    assert_eq!(out.len(), 1);
    assert_eq!(out[0].label_index, 1);
    assert_eq!(out[0].image.data(), &vec![1, 2, 3]);
    assert_eq!(assemble_batch(&two_items(), vec![None, None], DecodePolicy::Skip), Ok(Vec::new()));
}

#[test]
fn complete_batch_keeps_every_item_in_order() {
    let first = PixelBuffer::from_raw(1, 1, ColorMode::Rgb, vec![1, 2, 3]).unwrap();
    let second = PixelBuffer::from_raw(1, 1, ColorMode::Rgb, vec![4, 5, 6]).unwrap();
    for policy in [DecodePolicy::Abort, DecodePolicy::Skip] {
        let images =
            vec![Some(PixelBuffer::from_raw(1, 1, ColorMode::Rgb, vec![1, 2, 3]).unwrap()), Some(
                PixelBuffer::from_raw(1, 1, ColorMode::Rgb, vec![4, 5, 6]).unwrap(),
            )];
        let out = assemble_batch(&two_items(), images, policy).unwrap();
        assert_eq!(out.len(), 2);
        assert_eq!((out[0].label_index, out[1].label_index), (0, 1));
        assert_eq!(out[0].image, first);
        assert_eq!(out[1].image, second);
    }
    assert_eq!(assemble_batch(&Vec::new(), Vec::new(), DecodePolicy::Abort), Ok(Vec::<LoadedItem>::new()));
}

#[test]
fn batch_is_loaded_from_file_contents() {
    let contents = vec![Some(png_bytes_of(4, 4, ramp(48))), Some(png_bytes_of(2, 5, ramp(30)))];
    let config = loading_config(3, 2, ColorMode::Grayscale);
    let batch = load_batch(&two_items(), &contents, &config, DecodePolicy::Abort).unwrap();
    assert_eq!(batch.len(), 2);
    for (loaded, item) in batch.iter().zip(two_items()) {
        assert_eq!(loaded.image.tensor_shape(), (2, 3, 1));
        assert_eq!(loaded.label_index, item.label_index);
    }
}

#[test]
fn corrupt_file_fails_the_batch_with_its_path() {
    let contents = vec![Some(png_bytes_of(4, 4, ramp(48))), Some(b"corrupt".to_vec())];
    let config = loading_config(3, 2, ColorMode::Rgb);
    assert_eq!(
        load_batch(&two_items(), &contents, &config, DecodePolicy::Abort),
        Err(PipelineError::ItemDecodeError { path: "B/1.png".to_string() })
    );
}

#[test]
fn unreadable_file_fails_the_batch_with_its_path() {
    let contents = vec![None, Some(png_bytes_of(4, 4, ramp(48)))];
    let config = loading_config(3, 2, ColorMode::Rgb);
    assert_eq!(
        load_batch(&two_items(), &contents, &config, DecodePolicy::Abort),
        Err(PipelineError::ItemDecodeError { path: "A/0.png".to_string() })
    );
}

#[test]
fn corrupt_file_is_skipped_on_request() {
    let contents = vec![Some(b"corrupt".to_vec()), Some(png_bytes_of(4, 4, ramp(48)))];
    let config = loading_config(2, 2, ColorMode::Rgb);
    let batch = load_batch(&two_items(), &contents, &config, DecodePolicy::Skip).unwrap();
    assert_eq!(batch.len(), 1);
    assert_eq!(batch[0].label_index, 1);
    assert_eq!(batch[0].image.tensor_shape(), (2, 2, 3));
}

#[test]
fn resize_refuses_sides_beyond_the_limit() {
    assert_eq!(MAX_SIDE, 65535);
    let small = PixelBuffer::from_raw(2, 2, ColorMode::Rgb, ramp(12)).unwrap();
    assert!(small.resize(65536, 1).is_none());
    assert!(small.resize(1, 65536).is_none());
    assert!(small.resize(4294967295, 4294967295).is_none());
    let widest = small.resize(65535, 1).unwrap();
    assert_eq!(widest.tensor_shape(), (1, 65535, 3));
    let tall = PixelBuffer::from_raw(1, 65536, ColorMode::Rgb, ramp(3 * 65536)).unwrap();
    assert!(tall.resize(1, 10).is_none());
    let wide = PixelBuffer::from_raw(65536, 1, ColorMode::Rgb, ramp(3 * 65536)).unwrap();
    assert!(wide.resize(10, 1).is_none());
    let tallest = PixelBuffer::from_raw(1, 65535, ColorMode::Rgb, ramp(3 * 65535)).unwrap();
    assert_eq!(tallest.resize(1, 10).unwrap().tensor_shape(), (10, 1, 3));
}
