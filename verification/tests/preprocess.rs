use base64::Engine;
use datarunner_core::preprocess::{
    after_attempt, attempt, prepared_file_name, start_screenshot, EncodeStep, Evidence,
    MAX_SCREENSHOT_BYTES,
};
use image::{ImageBuffer, Rgb};

fn done(step: EncodeStep) -> Option<String> {
    match step {
        EncodeStep::Done(text) => Some(text),
        EncodeStep::Try(_) => None,
    }
}

#[test]
fn encodes_small_image_as_base64() {
    let img: ImageBuffer<Rgb<u8>, Vec<u8>> =
        ImageBuffer::from_fn(64, 48, |x, y| Rgb([(x * 4) as u8, (y * 5) as u8, 120]));
    let mut png = std::io::Cursor::new(Vec::new());
    img.write_to(&mut png, image::ImageFormat::Png).unwrap();
    let bytes = png.into_inner();
    let b64 = done(start_screenshot(&bytes)).unwrap();
    assert!(!b64.is_empty());
    // Round-trips as valid base64.
    let back = base64::engine::general_purpose::STANDARD.decode(&b64);
    assert!(back.is_ok());
    assert_eq!(back.unwrap(), bytes);
}

#[test]
fn base64_pads_the_last_group() {
    let cases: [(&[u8], &str); 5] =
        [(b"", ""), (b"f", "Zg=="), (b"fo", "Zm8="), (b"foo", "Zm9v"), (&[251, 255], "+/8=")];
    for (bytes, text) in cases {
        assert_eq!(done(start_screenshot(&bytes.to_vec())).as_deref(), Some(text));
    }
}

#[test]
fn attempts_go_on_until_the_image_is_small_enough() {
    let big = vec![0u8; MAX_SCREENSHOT_BYTES + 1];
    let small = vec![0u8; 3];
    for evidence in [Evidence::Screenshot, Evidence::Panel] {
        let mut n = 0;
        while attempt(evidence, n).is_some() {
            assert_eq!(done(after_attempt(evidence, n, &small)).as_deref(), Some("AAAA"));
            match after_attempt(evidence, n, &big) {
                EncodeStep::Try(next) => assert_eq!(next, n + 1),
                // The last one is taken whatever its size.
                EncodeStep::Done(_) => assert!(attempt(evidence, n + 1).is_none()),
            }
            n += 1;
        }
        assert!(n == 5 || n == 6);
    }
    assert!(matches!(start_screenshot(&big), EncodeStep::Try(0)));
    let limit = vec![0u8; MAX_SCREENSHOT_BYTES];
    assert!(matches!(start_screenshot(&limit), EncodeStep::Done(_)));
}

#[test]
fn attempts_get_smaller() {
    let sizes = |e| (0..).map_while(|n| attempt(e, n)).map(|a| (a.percent, a.quality)).collect();
    let screenshot: Vec<(u8, u8)> = sizes(Evidence::Screenshot);
    assert_eq!(screenshot, vec![(100, 80), (75, 80), (50, 80), (35, 80), (25, 70)]);
    let panel: Vec<(u8, u8)> = sizes(Evidence::Panel);
    assert_eq!(panel, vec![(100, 82), (85, 82), (70, 82), (50, 82), (35, 82), (30, 70)]);
}

#[test]
fn prepared_files_are_named_by_process_and_run() {
    assert_ne!(prepared_file_name(1, 23), prepared_file_name(12, 3));
    assert!(prepared_file_name(7, 3).ends_with(".png"));
}
