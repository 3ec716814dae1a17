use cargo_deb::error::{AssetError, ConfigError, Error, WriteError};

#[test]
fn asset_errors_name_the_field() {
    assert_eq!(AssetError::MissingOrigin.message(), "cargo-deb: unable to get asset's path");
    assert_eq!(AssetError::MissingTarget.message(), "cargo-deb: unable to get asset's target");
    assert_eq!(AssetError::MissingMode.message(), "cargo-deb: unable to get chmod argument");
    assert_eq!(
        AssetError::InvalidMode.message(),
        "cargo-deb: chmod argument is not an octal number"
    );
    assert_eq!(AssetError::EmptyTarget.message(), "cargo-deb: asset's target is empty");
    assert_eq!(AssetError::NoFileName.message(), "cargo-deb: asset's path has no file name");
}

#[test]
fn configuration_errors_have_messages() {
    assert_eq!(
        ConfigError::MissingLicenseFile.message(),
        "cargo-deb: missing license file argument"
    );
    assert_eq!(
        ConfigError::Asset { index: 3, reason: AssetError::MissingMode }.message(),
        "cargo-deb: unable to get chmod argument"
    );
}

#[test]
fn build_errors_have_messages() {
    assert_eq!(
        Error::Config(ConfigError::MissingLicenseFile).message(),
        "cargo-deb: missing license file argument"
    );
    assert_eq!(
        Error::MissingContent { asset: 0 }.message(),
        "cargo-deb: unable to read asset's data"
    );
    assert_eq!(
        Error::Write { entry: 1, reason: WriteError::Io }.message(),
        "cargo-deb: unable to write data to archive."
    );
    assert_eq!(
        Error::Write { entry: 1, reason: WriteError::Encoding }.message(),
        "cargo-deb: unable to set the path of an archive entry"
    );
    assert_eq!(Error::Finish.message(), "cargo-deb: unable to finish the archive");
    assert_eq!(WriteError::Io.message(), "cargo-deb: unable to write data to archive.");
}
