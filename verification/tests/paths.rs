use cargo_deb::asset::{parse_asset, parse_assets, parse_mode};
use cargo_deb::error::{AssetError, ConfigError};
use cargo_deb::path::normalize_target;

fn record(fields: &[&str]) -> Vec<String> {
    fields.iter().map(|field| String::from(*field)).collect()
}

#[test]
fn normalizes_directory_target_with_file_name() {
    assert_eq!(normalize_target("x/file.txt", "/a/b/"), Ok(String::from("./a/b/file.txt")));
}

#[test]
fn normalizes_file_target() {
    assert_eq!(normalize_target("x/file.txt", "a/b.txt"), Ok(String::from("./a/b.txt")));
}

#[test]
fn strips_one_leading_slash_only() {
    assert_eq!(normalize_target("file", "//a"), Ok(String::from(".//a")));
    assert_eq!(normalize_target("file", "/a"), Ok(String::from("./a")));
    assert_eq!(normalize_target("file", "a"), Ok(String::from("./a")));
}

#[test]
fn leading_slash_changes_nothing() {
    for target in ["a", "a/", "a/b.txt", "usr/share/doc/"] {
        let rooted = format!("/{}", target);
        assert_eq!(normalize_target("x/file", &rooted), normalize_target("x/file", target));
    }
}

#[test]
fn root_target_takes_the_file_name() {
    assert_eq!(normalize_target("dir/tool", "/"), Ok(String::from("./tool")));
}

#[test]
fn origin_without_directory_is_its_own_file_name() {
    assert_eq!(normalize_target("tool", "usr/bin/"), Ok(String::from("./usr/bin/tool")));
}

#[test]
fn file_name_is_what_follows_the_last_slash() {
    assert_eq!(
        normalize_target("/a/b.d/c.tar.gz", "opt/"),
        Ok(String::from("./opt/c.tar.gz"))
    );
    assert_eq!(normalize_target("a/\u{e9}t\u{e9}", "d/"), Ok(String::from("./d/\u{e9}t\u{e9}")));
}

#[test]
fn origin_is_not_read_for_a_file_target() {
    assert_eq!(normalize_target("", "a/b"), Ok(String::from("./a/b")));
    assert_eq!(normalize_target("dir/", "a/b"), Ok(String::from("./a/b")));
}

#[test]
fn rejects_empty_target() {
    assert_eq!(normalize_target("x/file.txt", ""), Err(AssetError::EmptyTarget));
}

#[test]
fn rejects_origin_without_file_name() {
    assert_eq!(normalize_target("", "a/"), Err(AssetError::NoFileName));
    assert_eq!(normalize_target("dir/", "a/"), Err(AssetError::NoFileName));
    assert_eq!(normalize_target(".", "a/"), Err(AssetError::NoFileName));
    assert_eq!(normalize_target("..", "a/"), Err(AssetError::NoFileName));
    assert_eq!(normalize_target("dir/..", "a/"), Err(AssetError::NoFileName));
    assert_eq!(normalize_target("dir/.", "a/"), Err(AssetError::NoFileName));
    assert_eq!(normalize_target("dir/...", "a/"), Ok(String::from("./a/...")));
    assert_eq!(normalize_target("dir/.x", "a/"), Ok(String::from("./a/.x")));
}

#[test]
fn normalized_target_begins_with_dot_slash_and_ends_with_no_slash() {
    let origins = ["f", "a/f", "/a/b/f.txt"];
    let targets = ["/", "a", "/a", "a/", "/a/b/", "a/b/c.txt", "//"];
    for origin in origins.iter() {
        for target in targets.iter() {
            let place = normalize_target(origin, target).unwrap();
            assert!(place.starts_with("./"));
            assert!(!place.ends_with('/'));
            assert!(place.len() > 2);
        }
    }
}

#[test]
fn parses_octal_modes() {
    assert_eq!(parse_mode("644"), Some(420));
    assert_eq!(parse_mode("755"), Some(493));
    assert_eq!(parse_mode("0755"), Some(493));
    assert_eq!(parse_mode("0"), Some(0));
    assert_eq!(parse_mode("+644"), Some(420));
    assert_eq!(parse_mode("37777777777"), Some(u32::MAX));
    assert_eq!(parse_mode("00000000000000000000007"), Some(7));
}

#[test]
fn rejects_what_is_no_octal_mode() {
    assert_eq!(parse_mode(""), None);
    assert_eq!(parse_mode("+"), None);
    assert_eq!(parse_mode("-644"), None);
    assert_eq!(parse_mode("++644"), None);
    assert_eq!(parse_mode("648"), None);
    assert_eq!(parse_mode("rwx"), None);
    assert_eq!(parse_mode(" 644"), None);
    assert_eq!(parse_mode("644 "), None);
    assert_eq!(parse_mode("6_4"), None);
    assert_eq!(parse_mode("40000000000"), None);
    assert_eq!(parse_mode("777777777777777777777777777"), None);
    assert_eq!(parse_mode("\u{663}"), None);
}

#[test]
fn mode_parser_agrees_with_the_standard_radix_parser() {
    let samples = [
        "", "+", "-", "0", "7", "8", "+7", "-7", "07", "777", "778", "1a", "0o7", "37777777777",
        "40000000000", "+37777777777", "+40000000000", "177777777777", " 1", "1 ", "1\n", "١",
    ];
    for sample in samples.iter() {
        assert_eq!(parse_mode(sample), u32::from_str_radix(sample, 8).ok(), "{:?}", sample);
    }
    for value in 0u32..5000 {
        let text = format!("{:o}", value);
        assert_eq!(parse_mode(&text), Some(value));
    }
}

#[test]
fn parses_an_asset_record() {
    let asset = parse_asset(&record(&["target/release/tool", "usr/bin/", "755"])).unwrap();
    assert_eq!(asset.origin, "target/release/tool");
    assert_eq!(asset.target, "./usr/bin/tool");
    assert_eq!(asset.mode, 0o755);
}

#[test]
fn asset_record_fields_behind_the_third_are_not_read() {
    let asset = parse_asset(&record(&["a", "b", "644", "junk"])).unwrap();
    assert_eq!(asset.target, "./b");
    assert_eq!(asset.mode, 0o644);
}

#[test]
fn names_the_missing_field_of_an_asset_record() {
    assert_eq!(parse_asset(&record(&[])).unwrap_err(), AssetError::MissingOrigin);
    assert_eq!(parse_asset(&record(&["a"])).unwrap_err(), AssetError::MissingTarget);
    assert_eq!(parse_asset(&record(&["a", "b"])).unwrap_err(), AssetError::MissingMode);
}

#[test]
fn rejects_a_malformed_asset_record() {
    assert_eq!(parse_asset(&record(&["a", "b", "9"])).unwrap_err(), AssetError::InvalidMode);
    assert_eq!(parse_asset(&record(&["a", "", "644"])).unwrap_err(), AssetError::EmptyTarget);
    assert_eq!(parse_asset(&record(&["a/", "b/", "644"])).unwrap_err(), AssetError::NoFileName);
}

#[test]
fn a_bad_mode_is_reported_before_a_bad_target() {
    assert_eq!(parse_asset(&record(&["a", "", "x"])).unwrap_err(), AssetError::InvalidMode);
}

#[test]
fn parses_all_asset_records_in_order() {
    let records = vec![record(&["x/one", "d/", "644"]), record(&["two", "/e/two.txt", "600"])];
    let assets = parse_assets(&records).unwrap();
    assert_eq!(assets.len(), 2);
    assert_eq!(assets[0].target, "./d/one");
    assert_eq!(assets[1].target, "./e/two.txt");
    assert_eq!(assets[1].mode, 0o600);
    assert_eq!(parse_assets(&Vec::new()).unwrap().len(), 0);
}

#[test]
fn names_the_first_malformed_asset_record() {
    let records = vec![
        record(&["a", "b", "644"]),
        record(&["a", "b"]),
        record(&["a", "b", "x"]),
    ];
    assert_eq!(
        parse_assets(&records).unwrap_err(),
        ConfigError::Asset { index: 1, reason: AssetError::MissingMode }
    );
}
