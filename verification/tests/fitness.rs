use enigma::analysis::decimal::{read_value, NOT_A_NUMBER, VALUE_LIMIT};
use enigma::analysis::fitness::{
    can_be_scored, read_key, FitnessFunction, IoCFitness, KnownPlainTextFitness, LineFault,
    NgramError, NgramFitness, NGRAM_FLOOR, SCORE_FLOOR, SCORE_SCALE,
};
use enigma::text::is_valid_text;

#[test]
fn text_of_upper_case_letters_is_valid() {
    assert!(is_valid_text(""));
    assert!(is_valid_text("AZ"));
    assert!(is_valid_text("THEQUICKBROWNFOX"));
    assert!(!is_valid_text("THE QUICK"));
    assert!(!is_valid_text("aBC"));
    assert!(!is_valid_text("ABc"));
    assert!(!is_valid_text("AB1"));
    assert!(!is_valid_text("A@"));
    assert!(!is_valid_text("A["));
    assert!(!is_valid_text("ÄB"));
    assert!(!is_valid_text("AB\n"));
}

#[test]
fn upper_case_text_can_be_scored() {
    assert!(can_be_scored(""));
    assert!(can_be_scored("ENIGMA"));
    assert!(!can_be_scored("Enigma"));
    assert!(!can_be_scored("ENIGMA "));
    assert!(!can_be_scored("ÉNIGMA"));
}

#[test]
fn ioc_of_one_repeated_letter_is_one() {
    let text = "A".repeat(100);
    let score = IoCFitness::new().score(&text);
    assert_eq!(score, SCORE_SCALE);
    assert_eq!(score as f64 / SCORE_SCALE as f64, 1.0);
}

#[test]
fn coincidence_counts_are_exact() {
    assert_eq!(IoCFitness::coincidence_counts(&"A".repeat(100)), (9900, 9900));
    assert_eq!(IoCFitness::coincidence_counts("AABB"), (4, 12));
    assert_eq!(IoCFitness::coincidence_counts("ABACAB"), (8, 30));
    assert_eq!(IoCFitness::coincidence_counts("ABCDEFGHIJKLMNOPQRSTUVWXYZ"), (0, 650));
    assert_eq!(IoCFitness::coincidence_counts("Q"), (0, 0));
    assert_eq!(IoCFitness::coincidence_counts(""), (0, 0));
    let (same, all_pairs) = IoCFitness::coincidence_counts(&"Z".repeat(100));
    assert_eq!(same as f32 / all_pairs as f32, 1.0);
}

#[test]
fn ioc_counts_pairs_of_equal_letters() {
    let ioc = IoCFitness::default();
    // counts 2 and 2: 2 + 2 pairs out of 4 * 3
    assert_eq!(ioc.score("AABB"), 333_333);
    // no letter twice
    assert_eq!(ioc.score("ABCDEFGHIJKLMNOPQRSTUVWXYZ"), 0);
    // counts 3, 2, 1: 6 + 2 + 0 pairs out of 6 * 5
    assert_eq!(ioc.score("ABACAB"), 266_666);
    assert_eq!(ioc.score("ZZ"), 1_000_000);
    assert_eq!(ioc.score("ZY"), 0);
}

#[test]
fn ioc_of_the_sample_ciphertext() {
    let cipher = "OZLUDYAKMGMXVFVARPMJIKVWPMBVWMOIDHYPLAYUWGBZFAFAFUQFZQISLEZMYPVBRDDLAGIHIFUJDFADORQOOMIZP\
                  YXDCBPWDSSNUSYZTJEWZPWFBWBMIEQXRFASZLOPPZRJKJSPPSTXKPUWYSKNMZZLHJDXJMMMDFODIHUBVCXMNICNYQ\
                  BNQODFQLOGPZYXRJMTLMRKQAUQJPADHDZPFIKTQBFXAYMVSZPKXIQLOQCVRPKOBZSXIUBAAJBRSNAFDMLLBVSYXIS\
                  FXQZKQJRIQHOSHVYJXIFUZRMXWJVWHCCYHCXYGRKMKBPWRDBXXRGABQBZRJDVHFPJZUSEBHWAEOGEUQFZEEBDCWND\
                  HIAQDMHKPRVYHQGRDYQIOEOLUBGBSNXWPZCHLDZQBWBEWOCQDBAFGUVHNGCIKXEIZGIZHPJFCTMNNNAUXEVWTWACH\
                  OLOLSLTMDRZJZEVKKSSGUUTHVXXODSKTFGRUEIIXVWQYUIPIDBFPGLBYXZTCOQBCAHJYNSGDYLREYBRAKXGKQKWJE\
                  KWGAPTHGOMXJDSQKYHMFGOLXBSKVLGNZOAXGVTGXUIVFTGKPJU";
    assert_eq!(IoCFitness::new().score(cipher), 38_182);
}

#[test]
fn ioc_of_a_text_without_pairs_of_places_is_the_lowest_score() {
    assert_eq!(IoCFitness::new().score(""), SCORE_FLOOR);
    assert_eq!(IoCFitness::new().score("Q"), SCORE_FLOOR);
    assert_eq!(SCORE_FLOOR, i64::MIN);
}

#[test]
fn known_plaintext_counts_agreeing_places() {
    let known = KnownPlainTextFitness::exact_message("HELLOWORLD");
    assert_eq!(known.score("HELLOWORLD"), 10);
    assert_eq!(known.score("HELLOWORLX"), 9);
    assert_eq!(known.score("XXXXXXXXXX"), 0);
    assert_eq!(known.score("DLROWOLLEH"), 0);
    assert_eq!(known.score("HXLXOXOXLX"), 5);
    // places beyond the end of either are not counted
    assert_eq!(known.score("HELLO"), 5);
    assert_eq!(known.score("HELLOWORLDANDMORE"), 10);
    assert_eq!(known.score(""), 0);
}

#[test]
fn known_words_score_only_where_they_stand() {
    let known = KnownPlainTextFitness::from_words(&[("WETTER", 3), ("BERICHT", 12)]);
    //                          0123456789012345678
    assert_eq!(known.score("XXXWETTERXXXBERICHT"), 13);
    assert_eq!(known.score("WETTERXXXXXXBERICHT"), 7 + 1);
    assert_eq!(known.score("XXXWETTERXXX"), 6);
    assert_eq!(known.score("AAAAAAAAAAAAAAAAAAAAAAAA"), 0);
    // a place that no word covers never counts
    assert_eq!(known.score("XXXWETTERWETBERICHTXXXX"), 13);
}

#[test]
fn later_words_overwrite_earlier_ones() {
    let known = KnownPlainTextFitness::from_words(&[("AAAA", 0), ("BB", 1)]);
    assert_eq!(known.score("ABBA"), 4);
    assert_eq!(known.score("AAAA"), 2);
    let known = KnownPlainTextFitness::from_words(&[("BB", 1), ("AAAA", 0)]);
    assert_eq!(known.score("AAAA"), 4);
    // the plaintext reaches as far as the word that reaches furthest
    let known = KnownPlainTextFitness::from_words(&[("Z", 5), ("AB", 0)]);
    assert_eq!(known.score("ABCDEZ"), 3);
    assert_eq!(known.score("ABCDE"), 2);
}

fn unigrams() -> NgramFitness<1> {
    NgramFitness::<1>::new(&["E,-0.9", "T,-1.05", "A,-1.1", "Z,-3.2"])
}

#[test]
fn ngram_scores_add_up_over_all_windows() {
    let uni = unigrams();
    assert_eq!(uni.score("E"), -900_000);
    assert_eq!(uni.score("TEA"), -1_050_000 - 900_000 - 1_100_000);
    assert_eq!(uni.score(""), 0);
    let bi = NgramFitness::<2>::new(&["TH,-1.5", "HE,-1.25", "EA,-2"]);
    // windows TH, HE, EA
    assert_eq!(bi.score("THEA"), -1_500_000 - 1_250_000 - 2_000_000);
    // a text shorter than a window has no windows
    assert_eq!(bi.score("T"), 0);
    assert_eq!(bi.score("TH"), -1_500_000);
}

#[test]
fn unlisted_ngrams_score_the_floor() {
    let uni = unigrams();
    assert_eq!(NGRAM_FLOOR, -9_522_879);
    assert_eq!((3e-10f64.log10() * 1e6).round() as i64, NGRAM_FLOOR);
    assert_eq!(uni.score("Q"), NGRAM_FLOOR);
    assert_eq!(uni.score("EQE"), -900_000 + NGRAM_FLOOR - 900_000);
    let quad = NgramFitness::<4>::new(&["TION,-2.5"]);
    assert_eq!(quad.score("ATION"), NGRAM_FLOOR - 2_500_000);
    assert_eq!(quad.score("ZZZZ"), NGRAM_FLOOR);
    assert_eq!(quad.score("AAAA"), NGRAM_FLOOR);
    let empty = NgramFitness::<2>::new(&[]);
    assert_eq!(empty.score("ABC"), 2 * NGRAM_FLOOR);
}

#[test]
fn a_later_line_for_the_same_ngram_counts() {
    let uni = NgramFitness::<1>::new(&["E,-0.9", "E,-0.5"]);
    assert_eq!(uni.score("E"), -500_000);
}

#[test]
fn ngrams_that_differ_in_one_letter_have_their_own_scores() {
    let tri = NgramFitness::<3>::new(&["AAB,-1", "ABA,-2", "BAA,-3", "AAA,-4", "ZZZ,-5", "ZZY,-6"]);
    assert_eq!(tri.score("AAB"), -1_000_000);
    assert_eq!(tri.score("ABA"), -2_000_000);
    assert_eq!(tri.score("BAA"), -3_000_000);
    assert_eq!(tri.score("AAA"), -4_000_000);
    assert_eq!(tri.score("ZZZ"), -5_000_000);
    assert_eq!(tri.score("ZZY"), -6_000_000);
    assert_eq!(tri.score("AABAAA"), -1_000_000 - 2_000_000 - 3_000_000 - 4_000_000);
}

#[test]
fn construction_fails_on_a_key_of_the_wrong_length() {
    assert_eq!(
        NgramFitness::<2>::check_lines(&["TH,-1.5", "THE,-1.0"]).err(),
        Some(NgramError::Line(1, LineFault::InvalidKey))
    );
    assert_eq!(
        NgramFitness::<2>::check_lines(&["T,-1.5"]).err(),
        Some(NgramError::Line(0, LineFault::InvalidKey))
    );
    assert_eq!(
        NgramFitness::<1>::check_lines(&[",-1.5"]).err(),
        Some(NgramError::Line(0, LineFault::InvalidKey))
    );
}

#[test]
fn construction_fails_on_a_key_with_a_lower_case_or_other_character() {
    assert_eq!(
        NgramFitness::<2>::check_lines(&["Th,-1.5"]).err(),
        Some(NgramError::Line(0, LineFault::InvalidKey))
    );
    assert_eq!(
        NgramFitness::<2>::check_lines(&["AB,-1", "T1,-1.5"]).err(),
        Some(NgramError::Line(1, LineFault::InvalidKey))
    );
    assert_eq!(
        NgramFitness::<2>::check_lines(&["T ,-1.5"]).err(),
        Some(NgramError::Line(0, LineFault::InvalidKey))
    );
    assert_eq!(
        NgramFitness::<2>::check_lines(&["ÄB,-1.5"]).err(),
        Some(NgramError::Line(0, LineFault::InvalidKey))
    );
}

#[test]
fn construction_fails_on_a_line_without_a_comma_or_with_a_bad_value() {
    assert_eq!(
        NgramFitness::<2>::check_lines(&["TH -1.5"]).err(),
        Some(NgramError::Line(0, LineFault::MissingComma))
    );
    assert_eq!(
        NgramFitness::<2>::check_lines(&["TH,-1.5", ""]).err(),
        Some(NgramError::Line(1, LineFault::MissingComma))
    );
    assert_eq!(
        NgramFitness::<2>::check_lines(&["TH,"]).err(),
        Some(NgramError::Line(0, LineFault::InvalidValue))
    );
    assert_eq!(
        NgramFitness::<2>::check_lines(&["TH,abc"]).err(),
        Some(NgramError::Line(0, LineFault::InvalidValue))
    );
    assert_eq!(
        NgramFitness::<2>::check_lines(&["TH,-1.5,3"]).err(),
        Some(NgramError::Line(0, LineFault::InvalidValue))
    );
    assert_eq!(
        NgramFitness::<2>::check_lines(&["TH,-1.5 "]).err(),
        Some(NgramError::Line(0, LineFault::InvalidValue))
    );
    assert_eq!(
        NgramFitness::<2>::check_lines(&["TH,-1.5e"]).err(),
        Some(NgramError::Line(0, LineFault::InvalidValue))
    );
    assert_eq!(
        NgramFitness::<2>::check_lines(&["TH,1", "HE,e5"]).err(),
        Some(NgramError::Line(1, LineFault::InvalidValue))
    );
}

#[test]
fn every_value_that_is_written_as_a_float_is_taken() {
    let values = [
        "inf", "-inf", "+INF", "infinity", "Infinity", "-iNfInItY", "NaN", "nan", "-nan", "+NAN",
        "1e13", "-1e40", "9223372036854.775808", "3.4028235e38", "1e-45", "0", "-0", ".5", "5.",
        "7e0", "007",
    ];
    for value in values {
        let line = format!("TH,{}", value);
        assert_eq!(NgramFitness::<2>::check_lines(&[line.as_str()]), Ok(()));
    }
    let table = NgramFitness::<1>::new(&["A,inf", "B,-infinity", "C,1e40", "D,-1"]);
    assert_eq!(table.score("A"), i64::MAX);
    assert_eq!(table.score("B"), -i64::MAX);
    assert_eq!(table.score("C"), i64::MAX);
    assert_eq!(table.score("AD"), i64::MAX - 1_000_000);
    assert_eq!(table.score("AB"), 0);
}

#[test]
fn a_run_whose_score_is_not_a_number_gives_the_lowest_score() {
    let table = NgramFitness::<1>::new(&["A,1", "B,NaN", "C,inf"]);
    assert_eq!(table.score("A"), 1_000_000);
    assert_eq!(table.score("B"), SCORE_FLOOR);
    assert_eq!(table.score("AB"), SCORE_FLOOR);
    assert_eq!(table.score("ABA"), SCORE_FLOOR);
    assert_eq!(table.score("CB"), SCORE_FLOOR);
    assert_eq!(table.score("BCCCC"), SCORE_FLOOR);
    assert_eq!(table.score("AAC"), i64::MAX);
    assert_eq!(table.score(""), 0);
}

#[test]
fn construction_takes_large_values_and_exponents() {
    let table = NgramFitness::<2>::new(&[
        "AB,3000",
        "CD,1e-3",
        "EF,-7.5E+2",
        "GH,13168375",
        "IJ,2147.483648",
        "KL,-2.4435e0",
    ]);
    assert_eq!(table.score("AB"), 3_000_000_000);
    assert_eq!(table.score("CD"), 1_000);
    assert_eq!(table.score("EF"), -750_000_000);
    assert_eq!(table.score("GH"), 13_168_375_000_000);
    assert_eq!(table.score("IJ"), 2_147_483_648);
    assert_eq!(table.score("KL"), -2_443_500);
    assert_eq!(table.score("ABABAB"), 3 * 3_000_000_000 + 2 * NGRAM_FLOOR);
}

#[test]
fn scores_beyond_what_a_score_can_hold_are_kept_at_the_end_of_the_range() {
    let table = NgramFitness::<1>::new(&[
        "A,9223372036854.775807",
        "B,-9223372036854.775807",
        "C,-1",
    ]);
    assert_eq!(table.score("A"), i64::MAX);
    assert_eq!(table.score("AA"), i64::MAX);
    assert_eq!(table.score("AAC"), i64::MAX);
    assert_eq!(table.score("B"), -i64::MAX);
    assert_eq!(table.score("BB"), i64::MIN);
    assert_eq!(table.score("BBB"), i64::MIN);
    assert_eq!(i64::MIN, SCORE_FLOOR);
    assert_eq!(table.score("AB"), 0);
    assert_eq!(table.score("ABC"), -1_000_000);
    assert_eq!(table.score("AABC"), i64::MAX - 1_000_000);
}

#[test]
fn tables_are_made_for_one_to_six_letters() {
    assert_eq!(NgramFitness::<0>::check_lines(&[]).err(), Some(NgramError::UnsupportedLength));
    assert_eq!(NgramFitness::<7>::check_lines(&[]).err(), Some(NgramError::UnsupportedLength));
    assert!(NgramFitness::<1>::check_lines(&[]).is_ok());
    assert!(NgramFitness::<4>::check_lines(&["ABCD,1"]).is_ok());
}

#[test]
fn keys_are_numbered_to_base_26() {
    assert_eq!(read_key("A,1", 1), Ok((0, 1)));
    assert_eq!(read_key("Z,1", 1), Ok((25, 1)));
    assert_eq!(read_key("BA,1", 2), Ok((26, 2)));
    assert_eq!(read_key("AB,1", 2), Ok((1, 2)));
    assert_eq!(read_key("ZZZZ,whatever", 4), Ok((26 * 26 * 26 * 26 - 1, 4)));
    assert_eq!(read_key("TION,-2", 4), Ok((((19 * 26 + 8) * 26 + 14) * 26 + 13, 4)));
    assert_eq!(read_key("ZZZZZZ,0", 6), Ok((308_915_775, 6)));
    assert_eq!(read_key("AB", 2), Err(LineFault::MissingComma));
    assert_eq!(read_key("ABC,1", 2), Err(LineFault::InvalidKey));
    assert_eq!(read_key("aB,1", 2), Err(LineFault::InvalidKey));
    assert_eq!(read_key("A,B,1", 2), Err(LineFault::InvalidKey));
}

#[test]
fn values_are_read_in_millionths() {
    assert_eq!(read_value("-7.5", 0), Some(-7_500_000));
    assert_eq!(read_value("3", 0), Some(3_000_000));
    assert_eq!(read_value("0", 0), Some(0));
    assert_eq!(read_value("-0", 0), Some(0));
    assert_eq!(read_value(".5", 0), Some(500_000));
    assert_eq!(read_value("5.", 0), Some(5_000_000));
    assert_eq!(read_value("+1.25", 0), Some(1_250_000));
    assert_eq!(read_value("-0.000001", 0), Some(-1));
    assert_eq!(read_value("007.010", 0), Some(7_010_000));
    assert_eq!(read_value("TH,-2.4435", 3), Some(-2_443_500));
    assert_eq!(read_value("TH,", 3), None);
}

#[test]
fn digits_behind_the_sixth_are_dropped() {
    assert_eq!(read_value("1.2345678", 0), Some(1_234_567));
    assert_eq!(read_value("-1.9999999", 0), Some(-1_999_999));
    assert_eq!(read_value("0.0000009", 0), Some(0));
    assert_eq!(read_value("-9.522878745280337", 0), Some(-9_522_878));
}

#[test]
fn exponents_move_the_decimal_point() {
    assert_eq!(read_value("1e-3", 0), Some(1_000));
    assert_eq!(read_value("1.5e3", 0), Some(1_500_000_000));
    assert_eq!(read_value("-2.5E-1", 0), Some(-250_000));
    assert_eq!(read_value("1E+2", 0), Some(100_000_000));
    assert_eq!(read_value("1e0", 0), Some(1_000_000));
    assert_eq!(read_value("1e-0", 0), Some(1_000_000));
    assert_eq!(read_value("5.e1", 0), Some(50_000_000));
    assert_eq!(read_value(".5e1", 0), Some(5_000_000));
    assert_eq!(read_value("+.5E-1", 0), Some(50_000));
    assert_eq!(read_value("1e-6", 0), Some(1));
    assert_eq!(read_value("1e-7", 0), Some(0));
    assert_eq!(read_value("-9e-7", 0), Some(0));
    assert_eq!(read_value("123456789e-10", 0), Some(12_345));
    assert_eq!(read_value("0.000000123e7", 0), Some(1_230_000));
    assert_eq!(read_value("1e007", 0), Some(10_000_000_000_000));
    assert_eq!(read_value("1e12", 0), Some(1_000_000_000_000_000_000));
    assert_eq!(read_value("9e12", 0), Some(9_000_000_000_000_000_000));
    assert_eq!(read_value("AB,3e-10", 3), Some(0));
}

#[test]
fn long_rows_of_digits_count_by_where_the_point_ends_up() {
    assert_eq!(read_value("10000000000000000000000000000e-25", 0), Some(1_000_000_000));
    assert_eq!(read_value("0.0000000000000000000000000001e30", 0), Some(100_000_000));
    assert_eq!(read_value("0.00000000000000000000000000000000000000001", 0), Some(0));
    assert_eq!(read_value("000000000000000000000000000000000000001.5", 0), Some(1_500_000));
    assert_eq!(read_value("0e999999999999999999999999999999", 0), Some(0));
    assert_eq!(read_value("0.000e+999999999999999999999999999999", 0), Some(0));
    assert_eq!(read_value("1e-999999999999999999999999999999", 0), Some(0));
    assert_eq!(read_value("1e999999999999999999999999999999", 0), Some(i64::MAX));
    assert_eq!(read_value("1e1180591620717411303424", 0), Some(i64::MAX));
    assert_eq!(read_value("1e-1180591620717411303425", 0), Some(0));
}

#[test]
fn values_beyond_the_limit_are_kept_at_the_limit() {
    assert_eq!(VALUE_LIMIT, i64::MAX);
    assert_eq!(read_value("2147.483648", 0), Some(2_147_483_648));
    assert_eq!(read_value("3000", 0), Some(3_000_000_000));
    assert_eq!(read_value("9223372036854.775807", 0), Some(i64::MAX));
    assert_eq!(read_value("-9223372036854.775807", 0), Some(-i64::MAX));
    assert_eq!(read_value("9223372036854.7758079", 0), Some(i64::MAX));
    assert_eq!(read_value("9223372036854.775808", 0), Some(i64::MAX));
    assert_eq!(read_value("-9223372036854.775808", 0), Some(-i64::MAX));
    assert_eq!(read_value("9223372036855", 0), Some(i64::MAX));
    assert_eq!(read_value("1e13", 0), Some(i64::MAX));
    assert_eq!(read_value("-9.3e12", 0), Some(-i64::MAX));
    assert_eq!(read_value("99999999999999999999999999", 0), Some(i64::MAX));
    assert_eq!(read_value("1e999999999999999999999999999999", 0), Some(i64::MAX));
    assert_eq!(read_value("-1e1180591620717411303424", 0), Some(-i64::MAX));
    assert_eq!(read_value("0.001e1180591620717411303424", 0), Some(i64::MAX));
}

#[test]
fn infinity_and_nan_are_read_in_any_case_of_letters() {
    for word in ["inf", "INF", "Inf", "+inf", "infinity", "INFINITY", "+Infinity", "iNfInItY"] {
        assert_eq!(read_value(word, 0), Some(i64::MAX));
    }
    for word in ["-inf", "-INF", "-infinity", "-Infinity"] {
        assert_eq!(read_value(word, 0), Some(-i64::MAX));
    }
    for word in ["nan", "NaN", "NAN", "+nan", "-nan", "-NaN"] {
        assert_eq!(read_value(word, 0), Some(NOT_A_NUMBER));
    }
    assert_eq!(NOT_A_NUMBER, i64::MIN);
    assert_eq!(read_value("AB,-Inf", 3), Some(-i64::MAX));
    for word in ["in", "infi", "infinit", "infinityy", "inf ", " inf", "na", "nana", "n", "i",
        "--inf", "+-nan", "inf1", "1inf", "nan.", "ınf", "ⅰnf", "infinıty"] {
        assert_eq!(read_value(word, 0), None);
    }
}

#[test]
fn malformed_values_are_turned_down() {
    assert_eq!(read_value("", 0), None);
    assert_eq!(read_value(".", 0), None);
    assert_eq!(read_value("-", 0), None);
    assert_eq!(read_value("+", 0), None);
    assert_eq!(read_value("-.", 0), None);
    assert_eq!(read_value("--1", 0), None);
    assert_eq!(read_value("1.2.3", 0), None);
    assert_eq!(read_value("e5", 0), None);
    assert_eq!(read_value(".e5", 0), None);
    assert_eq!(read_value("1e", 0), None);
    assert_eq!(read_value("1e+", 0), None);
    assert_eq!(read_value("1e-", 0), None);
    assert_eq!(read_value("1e1.5", 0), None);
    assert_eq!(read_value("1e5x", 0), None);
    assert_eq!(read_value("1ee5", 0), None);
    assert_eq!(read_value("1e5e5", 0), None);
    assert_eq!(read_value("1e 5", 0), None);
    assert_eq!(read_value("1,5", 0), None);
    assert_eq!(read_value(" 1", 0), None);
    assert_eq!(read_value("1 ", 0), None);
    assert_eq!(read_value("1_000", 0), None);
    assert_eq!(read_value("0x10", 0), None);
    assert_eq!(read_value("١", 0), None);
    assert_eq!(read_value("1.5x", 0), None);
    assert_eq!(read_value("x", 1), None);
}
