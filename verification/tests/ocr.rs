use datarunner_core::ocr::{
    combine_word_lists, engine_args, engine_failure, lines_from_words, missing_engine, parse_tsv,
    unique_token, OcrConfig, Word,
};

const SAMPLE_TSV: &str = "level\tpage_num\tblock_num\tpar_num\tline_num\tword_num\tleft\ttop\twidth\theight\tconf\ttext\n\
5\t1\t1\t1\t1\t1\t10\t20\t30\t12\t92.5\tBUENO\n\
5\t1\t1\t1\t1\t2\t50\t20\t30\t12\t91.0\tRAVINE\n\
5\t1\t1\t1\t1\t3\t90\t20\t10\t12\t-1\t \n\
5\t1\t1\t1\t2\t1\t10\t40\t40\t12\t88.0\tMax\n\
5\t1\t1\t1\t2\t2\t60\t40\t60\t12\t80.0\tInventory";

fn row(conf: &str, text: &str) -> String {
    format!("5\t1\t2\t3\t4\t5\t10\t20\t30\t12\t{conf}\t{text}")
}

fn conf_of(conf: &str) -> Option<u8> {
    parse_tsv(&row(conf, "word")).first().map(|w| w.conf)
}

#[test]
fn parses_words_and_skips_empty_and_negative_conf() {
    let words = parse_tsv(SAMPLE_TSV);
    assert_eq!(words.len(), 4);
    assert_eq!(words[0].text, "BUENO");
    assert_eq!(words[0].conf, 93); // 92.5 rounds to 93
    assert_eq!(words[3].text, "Inventory");
}

#[test]
fn groups_lines_in_reading_order() {
    let words = parse_tsv(SAMPLE_TSV);
    let lines = lines_from_words(&words);
    assert_eq!(lines, vec!["BUENO RAVINE".to_string(), "Max Inventory".to_string()]);
}

#[test]
fn every_column_lands_in_its_field() {
    let words = parse_tsv("5\t1\t2\t3\t4\t5\t-10\t+20\tx\t99999999999\t50\t a b \r\n");
    assert_eq!(
        words,
        vec![Word {
            text: "a b".to_string(),
            conf: 50,
            left: -10,
            top: 20,
            width: 0,
            height: 0,
            line: (2, 3, 4),
            word_num: 5,
        }]
    );
}

#[test]
fn rows_of_other_levels_or_with_too_few_columns_are_skipped() {
    assert!(parse_tsv("4\t1\t1\t1\t1\t1\t10\t20\t30\t12\t92.5\tX").is_empty());
    assert!(parse_tsv("5\t1\t1\t1\t1\t1\t10\t20\t30\t12\t92.5").is_empty());
    assert!(parse_tsv("").is_empty());
    // A header counts only in the first row.
    assert_eq!(parse_tsv(&row("1", "levels")).len(), 1);
}

#[test]
fn confidences_read_like_single_precision_numbers() {
    let cases: [(&str, Option<u8>); 25] = [
        ("0", Some(0)),
        ("-0.0", Some(0)),
        ("0.4999999", Some(0)),
        ("0.49999998", Some(0)),
        ("0.499999999", Some(1)),
        ("0.5", Some(1)),
        ("92.499996", Some(92)),
        ("92.499999", Some(93)),
        ("96.063751", Some(96)),
        ("99.5", Some(100)),
        ("100", Some(100)),
        ("250", Some(100)),
        ("1e2", Some(100)),
        ("9.25E1", Some(93)),
        ("925e-1", Some(93)),
        (".5e+2", Some(50)),
        ("7.", Some(7)),
        ("inf", Some(100)),
        ("NaN", Some(0)),
        ("-inf", None),
        ("-3", None),
        ("abc", None),
        ("", None),
        ("1e", None),
        ("1.2.3", None),
    ];
    for (text, expected) in cases {
        assert_eq!(conf_of(text), expected, "{text}");
        // The standard library's reading agrees.
        let f = text.parse::<f32>().unwrap_or(-1.0);
        let standard = if f < 0.0 { None } else { Some(f.round().clamp(0.0, 100.0) as u8) };
        assert_eq!(standard, expected, "{text}");
    }
}

#[test]
fn confidences_agree_with_the_standard_library_near_the_halves() {
    for k in 0..100u32 {
        for d in 0..40u32 {
            let text = format!("{k}.{:07}", 4_999_960 + d * 2);
            let standard = text.parse::<f32>().unwrap().round() as u8;
            assert_eq!(conf_of(&text), Some(standard), "{text}");
        }
    }
}

#[test]
fn negative_numbers_too_small_to_read_are_zero() {
    // Half the smallest single-precision number, digit by digit.
    let half = "700649232162408535461864791644958065640130970938257885878534141944895541342930300743319094181060791015625";
    let cases: [(String, Option<u8>); 13] = [
        ("-1e-60".to_string(), Some(0)),
        ("-1e-46".to_string(), Some(0)),
        ("-7e-46".to_string(), Some(0)),
        ("-7.1e-46".to_string(), None),
        ("-1e-45".to_string(), None),
        ("-1e-40".to_string(), None),
        ("-0.0001".to_string(), None),
        ("-0e5".to_string(), Some(0)),
        (format!("-{half}e-150"), Some(0)),
        (format!("-{half}0000e-154"), Some(0)),
        (format!("-{half}0001e-154"), None),
        (format!("-0.{half}e-45"), Some(0)),
        (format!("-000.{}{half}1", "0".repeat(45)), None),
    ];
    for (text, expected) in cases {
        assert_eq!(conf_of(&text), expected, "{text}");
        let f = text.parse::<f32>().unwrap();
        assert_eq!(f < 0.0, expected.is_none(), "{text}");
    }
    assert_eq!(conf_of("-1e99999999999999999999999999999999999999999"), None);
    assert_eq!(conf_of("-0e99999999999999999999999999999999999999999"), Some(0));
    assert_eq!(conf_of("-1e-99999999999999999999999999999999999999999"), Some(0));
}

#[test]
fn huge_exponents_do_no_harm() {
    assert_eq!(conf_of("1e99999999999999999999999999999999999999999"), Some(100));
    assert_eq!(conf_of("0e99999999999999999999999999999999999999999"), Some(0));
    assert_eq!(conf_of("1e-99999999999999999999999999999999999999999"), Some(0));
}

#[test]
fn the_centre_is_half_way_down() {
    let mut w = parse_tsv(&row("90", "x")).remove(0);
    assert_eq!(w.center_y(), 26);
    w.height = 15;
    assert_eq!(w.center_y(), 27);
    w.height = -15;
    assert_eq!(w.center_y(), 13);
}

#[test]
fn a_line_break_in_the_ids_starts_a_new_line() {
    let mut words = parse_tsv(SAMPLE_TSV);
    words[1].line = (9, 9, 9);
    let lines = lines_from_words(&words);
    assert_eq!(lines, vec!["BUENO", "RAVINE", "Max Inventory"]);
    assert!(lines_from_words(&[]).is_empty());
}

#[test]
fn the_command_line_names_what_is_there() {
    let config = OcrConfig {
        tesseract_exe: "tesseract".to_string(),
        tessdata_dir: "data".to_string(),
        lang: "eng_sc".to_string(),
        psm: 6,
        user_words: Vec::new(),
        user_patterns: None,
    };
    let args = engine_args(&config, "in.png", "out", &None, &None);
    assert_eq!(
        args,
        vec![
            "in.png", "out", "--tessdata-dir", "data", "-l", "eng_sc", "--psm", "6", "-c",
            "tessedit_create_tsv=1"
        ]
    );
    let args =
        engine_args(&config, "in.png", "out", &Some("w".to_string()), &Some("p".to_string()));
    assert_eq!(args[10..], ["--user-words", "w", "--user-patterns", "p"]);
    assert_eq!(config.model_file(), "eng_sc.traineddata");
    assert!(config.is_available(true, true));
    assert!(!config.is_available(true, false));
    assert!(!config.is_available(false, true));
}

#[test]
fn word_lists_are_joined_by_line_breaks() {
    let lists = vec![Some("a\nb".to_string()), None, Some("c".to_string())];
    assert_eq!(combine_word_lists(&lists), "a\nb\nc\n");
}

#[test]
fn tokens_tell_runs_apart() {
    assert_eq!(unique_token(12, 3), "12_3");
    assert_ne!(unique_token(1, 23), unique_token(12, 3));
}

#[test]
fn engine_errors_say_what_happened() {
    assert_eq!(missing_engine("t.exe"), "tesseract executable not found: t.exe");
    assert_eq!(engine_failure("exit status: 1", "oops"), "tesseract failed (exit status: 1): oops");
}
