use cargo_deb::config::Config;
use cargo_deb::copyright::{
    copyright_document, license_path, render_line, skip_lines, whitespace,
};
use cargo_deb::error::ConfigError;

fn options_with_license_file(license_file: &[&str]) -> Config {
    Config {
        name: String::from("foo"),
        repository: String::from("https://example.org/foo"),
        copyright: String::from("2017, Jane Doe"),
        license: String::from("MIT"),
        license_file: license_file.iter().map(|field| String::from(*field)).collect(),
        assets: Vec::new(),
    }
}

const HEAD: &str = "Upstream Name: foo\n\
Source: https://example.org/foo\n\
Copyright: 2017, Jane Doe\n\
License: MIT\n";

fn document_text(license_file: &[&str], license: &str) -> String {
    let bytes = copyright_document(&options_with_license_file(license_file), license).unwrap();
    String::from_utf8(bytes).unwrap()
}

fn expected_body(license: &str, skip: usize) -> String {
    let mut body = String::new();
    for line in license.lines().skip(skip) {
        if line.trim().is_empty() {
            body.push_str(".\n");
        } else {
            body.push_str(line.trim());
            body.push('\n');
        }
    }
    body
}

#[test]
fn white_space_is_what_the_standard_library_calls_so() {
    for code in 0u32..=0x10ffff {
        if let Some(c) = char::from_u32(code) {
            assert_eq!(whitespace(c), c.is_whitespace(), "U+{:04X}", code);
        }
    }
}

#[test]
fn blank_line_becomes_a_dot() {
    assert_eq!(render_line(""), ".\n");
}

#[test]
fn line_of_white_space_becomes_a_dot() {
    assert_eq!(render_line("   "), ".\n");
    assert_eq!(render_line("\t \r"), ".\n");
    assert_eq!(render_line("\u{a0}\u{3000}"), ".\n");
}

#[test]
fn line_is_trimmed() {
    assert_eq!(render_line("  MIT License  "), "MIT License\n");
    assert_eq!(render_line("MIT License"), "MIT License\n");
    assert_eq!(render_line("\tPermission is  hereby\tgiven \r"), "Permission is  hereby\tgiven\n");
    assert_eq!(render_line("\u{2003}caf\u{e9}\u{a0}"), "caf\u{e9}\n");
    assert_eq!(render_line("."), ".\n");
    assert_eq!(render_line(" x "), "x\n");
}

#[test]
fn skip_count_is_read_as_a_decimal_number() {
    let reference = |file: &[&str]| skip_lines(&options_with_license_file(file).license_file);
    assert_eq!(reference(&["LICENSE", "3"]), 3);
    assert_eq!(reference(&["LICENSE", "0"]), 0);
    assert_eq!(reference(&["LICENSE", "+12"]), 12);
    assert_eq!(reference(&["LICENSE", "007"]), 7);
    assert_eq!(reference(&["LICENSE", "18446744073709551615"]), 18446744073709551615u64 as usize);
    assert_eq!(reference(&["LICENSE", "3", "9"]), 3);
}

#[test]
fn skip_count_defaults_to_zero() {
    let reference = |file: &[&str]| skip_lines(&options_with_license_file(file).license_file);
    assert_eq!(reference(&[]), 0);
    assert_eq!(reference(&["LICENSE"]), 0);
    assert_eq!(reference(&["LICENSE", ""]), 0);
    assert_eq!(reference(&["LICENSE", "three"]), 0);
    assert_eq!(reference(&["LICENSE", "-1"]), 0);
    assert_eq!(reference(&["LICENSE", " 3"]), 0);
    assert_eq!(reference(&["LICENSE", "3 "]), 0);
    assert_eq!(reference(&["LICENSE", "0x3"]), 0);
    assert_eq!(reference(&["LICENSE", "3.0"]), 0);
    assert_eq!(reference(&["LICENSE", "99999999999999999999999999"]), 0);
}

#[test]
fn skip_count_agrees_with_the_standard_parser() {
    let samples = [
        "", "+", "0", "1", "+1", "-1", "10", "0010", "1a", "a1", "1_0", " 1", "1 ",
        "18446744073709551615", "18446744073709551616", "4294967295", "4294967296", "٣",
    ];
    for sample in samples.iter() {
        let file = vec![String::from("LICENSE"), String::from(*sample)];
        assert_eq!(skip_lines(&file), sample.parse::<usize>().unwrap_or(0), "{:?}", sample);
    }
}

#[test]
fn document_begins_with_the_four_header_lines() {
    assert_eq!(document_text(&["LICENSE"], ""), HEAD);
}

#[test]
fn document_holds_the_transformed_license() {
    let license = "MIT License\n\n  Copyright (c) 2017  \n\nPermission is hereby granted\n";
    assert_eq!(
        document_text(&["LICENSE"], license),
        format!("{}MIT License\n.\nCopyright (c) 2017\n.\nPermission is hereby granted\n", HEAD)
    );
}

#[test]
fn document_skips_the_first_lines() {
    let license = "one\ntwo\n\nfour\n";
    assert_eq!(document_text(&["LICENSE", "2"], license), format!("{}.\nfour\n", HEAD));
    assert_eq!(document_text(&["LICENSE", "1"], license), format!("{}two\n.\nfour\n", HEAD));
    assert_eq!(document_text(&["LICENSE", "4"], license), HEAD);
    assert_eq!(document_text(&["LICENSE", "5"], license), HEAD);
    assert_eq!(document_text(&["LICENSE", "1000000"], license), HEAD);
}

#[test]
fn unparsable_or_absent_skip_count_is_zero() {
    let license = "one\ntwo\n\nfour\n";
    let with_zero = document_text(&["LICENSE", "0"], license);
    assert_eq!(with_zero, format!("{}one\ntwo\n.\nfour\n", HEAD));
    assert_eq!(document_text(&["LICENSE"], license), with_zero);
    assert_eq!(document_text(&["LICENSE", "two"], license), with_zero);
    assert_eq!(document_text(&["LICENSE", "-2"], license), with_zero);
    assert_eq!(document_text(&["LICENSE", ""], license), with_zero);
}

#[test]
fn last_line_needs_no_line_feed() {
    assert_eq!(document_text(&["LICENSE"], "one\ntwo"), format!("{}one\ntwo\n", HEAD));
    assert_eq!(document_text(&["LICENSE"], "one"), format!("{}one\n", HEAD));
}

#[test]
fn line_feeds_at_the_end_make_blank_lines_but_for_the_last() {
    assert_eq!(document_text(&["LICENSE"], "\n"), format!("{}.\n", HEAD));
    assert_eq!(document_text(&["LICENSE"], "one\n\n"), format!("{}one\n.\n", HEAD));
    assert_eq!(document_text(&["LICENSE"], "\n\n\n"), format!("{}.\n.\n.\n", HEAD));
}

#[test]
fn carriage_returns_are_trimmed_away() {
    assert_eq!(
        document_text(&["LICENSE"], "one\r\n\r\ntwo\r\n"),
        format!("{}one\n.\ntwo\n", HEAD)
    );
    assert_eq!(document_text(&["LICENSE"], "one\rtwo\r"), format!("{}one\rtwo\n", HEAD));
}

#[test]
fn document_is_encoded_in_utf8() {
    let license = " Caf\u{e9} \u{4e2d}\u{6587} \u{1f980}\u{a0}\n";
    let bytes = copyright_document(&options_with_license_file(&["LICENSE"]), license).unwrap();
    let mut expected = Vec::from(HEAD.as_bytes());
    expected.extend_from_slice("Caf\u{e9} \u{4e2d}\u{6587} \u{1f980}\n".as_bytes());
    assert_eq!(bytes, expected);
}

#[test]
fn header_fields_are_written_verbatim() {
    let mut options = options_with_license_file(&["LICENSE"]);
    options.name = String::from(" n\u{e9}e ");
    options.repository = String::new();
    options.copyright = String::from("a\nb");
    options.license = String::from("MIT OR Apache-2.0");
    let bytes = copyright_document(&options, "x").unwrap();
    assert_eq!(
        String::from_utf8(bytes).unwrap(),
        "Upstream Name:  n\u{e9}e \nSource: \nCopyright: a\nb\nLicense: MIT OR Apache-2.0\nx\n"
    );
}

#[test]
fn document_agrees_with_lines_and_trim_of_the_standard_library() {
    let licenses = [
        "",
        "\n",
        "a",
        "a\n",
        " a \n\n b\t\n",
        "\r\n\r\n",
        "x\r\ny\rz\n\u{a0}\n\u{2028}w\u{2029}\n\n\n",
        "  leading\n\ttabs\t\n   \nno newline at end  ",
        "\u{85}\n\u{1680}q\u{205f}\n",
    ];
    for license in licenses.iter() {
        for skip in 0usize..5 {
            let count = skip.to_string();
            assert_eq!(
                document_text(&["LICENSE", &count], license),
                format!("{}{}", HEAD, expected_body(license, skip)),
                "{:?} skip {}",
                license,
                skip
            );
        }
    }
}

#[test]
fn missing_license_file_is_a_configuration_error() {
    assert_eq!(
        copyright_document(&options_with_license_file(&[]), "text"),
        Err(ConfigError::MissingLicenseFile)
    );
}

#[test]
fn license_path_is_the_first_field() {
    let options = options_with_license_file(&["docs/LICENSE", "2"]);
    assert_eq!(license_path(&options), Ok(&String::from("docs/LICENSE")));
    assert_eq!(
        license_path(&options_with_license_file(&[])),
        Err(ConfigError::MissingLicenseFile)
    );
}
