//! Asset records and the assets that they declare.

use vstd::prelude::*;
use crate::error::{AssetError, ConfigError};
use crate::number::{parse_number, parsed_number};
use crate::path::{normalization, normalize_target};

verus! {

/// A file to be copied into the archive.
#[derive(Debug)]
pub struct Asset {
    /// Where the file is read from.
    pub origin: String,
    /// Where it goes in the archive: the normalized target.
    pub target: String,
    /// Its permission bits.
    pub mode: u32,
}

/// An asset as a mathematical value.
pub struct AssetView {
    pub origin: Seq<char>,
    pub target: Seq<char>,
    pub mode: u32,
}

impl View for Asset {
    type V = AssetView;

    open spec fn view(&self) -> AssetView {
        AssetView { origin: self.origin@, target: self.target@, mode: self.mode }
    }
}

impl DeepView for Asset {
    type V = AssetView;

    open spec fn deep_view(&self) -> AssetView {
        self@
    }
}

/// The permission bits that `text` denotes: a number written in octal that
/// fits in 32 bits.
pub open spec fn parsed_mode(text: Seq<char>) -> Option<u32> {
    match parsed_number(text, 8, u32::MAX as nat) {
        Some(mode) => Some(mode as u32),
        None => None,
    }
}

/// The asset that a record `[origin, target, mode]` declares, or what is
/// wrong with the record. Fields behind the third are not read.
pub open spec fn parsed_asset(record: Seq<Seq<char>>) -> Result<AssetView, AssetError> {
    if record.len() < 1 {
        Err(AssetError::MissingOrigin)
    } else if record.len() < 2 {
        Err(AssetError::MissingTarget)
    } else if record.len() < 3 {
        Err(AssetError::MissingMode)
    } else {
        match parsed_mode(record[2]) {
            None => Err(AssetError::InvalidMode),
            Some(mode) => match normalization(record[0], record[1]) {
                Err(reason) => Err(reason),
                Ok(target) => Ok(AssetView { origin: record[0], target, mode }),
            },
        }
    }
}

/// The assets that `records` declare, in order, or what is wrong with the
/// first record that is malformed.
pub open spec fn parsed_assets(records: Seq<Seq<Seq<char>>>) -> Result<Seq<AssetView>, ConfigError>
    decreases records.len(),
{
    if records.len() == 0 {
        Ok(Seq::empty())
    } else {
        match parsed_assets(records.drop_last()) {
            Err(error) => Err(error),
            Ok(assets) => match parsed_asset(records.last()) {
                Err(reason) => Err(
                    ConfigError::Asset { index: (records.len() - 1) as usize, reason },
                ),
                Ok(asset) => Ok(assets.push(asset)),
            },
        }
    }
}

/// The assets are parsed one by one: where all records are well-formed
/// there is one asset to each record, and else the error names the first
/// record that is not.
pub proof fn lemma_parsed_assets(records: Seq<Seq<Seq<char>>>)
    requires
        records.len() <= usize::MAX,
    ensures
        match parsed_assets(records) {
            Ok(assets) => {
                &&& assets.len() == records.len()
                &&& forall|i: int|
                    0 <= i < records.len() ==> parsed_asset(#[trigger] records[i]) == Ok::<
                        AssetView,
                        AssetError,
                    >(assets[i])
            },
            Err(ConfigError::Asset { index, reason }) => {
                &&& index < records.len()
                &&& parsed_asset(records[index as int]) == Err::<AssetView, AssetError>(reason)
                &&& forall|i: int| 0 <= i < index ==> parsed_asset(#[trigger] records[i]) is Ok
            },
            Err(_) => false,
        },
    decreases records.len(),
{
    if records.len() > 0 {
        let front = records.drop_last();
        lemma_parsed_assets(front);
        assert forall|i: int| 0 <= i < front.len() implies front[i] == records[i] by {}
        match parsed_assets(front) {
            Ok(assets) => {
                match parsed_asset(records.last()) {
                    Ok(asset) => {
                        let all = assets.push(asset);
                        assert forall|i: int| 0 <= i < records.len() implies parsed_asset(
                            #[trigger] records[i],
                        ) == Ok::<AssetView, AssetError>(all[i]) by {
                            if i < front.len() {
                                assert(front[i] == records[i]);
                            }
                        }
                    },
                    Err(reason) => {
                        assert forall|i: int| 0 <= i < records.len() - 1 implies parsed_asset(
                            #[trigger] records[i],
                        ) is Ok by {
                            assert(front[i] == records[i]);
                        }
                    },
                }
            },
            Err(ConfigError::Asset { index, reason }) => {
                assert(front[index as int] == records[index as int]);
                assert forall|i: int| 0 <= i < index implies parsed_asset(
                    #[trigger] records[i],
                ) is Ok by {
                    assert(front[i] == records[i]);
                }
            },
            Err(_) => {},
        }
    }
}

/// An error among the first records is the error of them all.
proof fn lemma_parse_error_stays(records: Seq<Seq<Seq<char>>>, count: int)
    requires
        0 <= count <= records.len(),
        parsed_assets(records.take(count)) is Err,
    ensures
        parsed_assets(records) == parsed_assets(records.take(count)),
    decreases records.len() - count,
{
    if count < records.len() {
        assert(records.drop_last().take(count) == records.take(count));
        lemma_parse_error_stays(records.drop_last(), count);
    } else {
        assert(records.take(count) == records);
    }
}

/// Reads permission bits written in octal.
pub fn parse_mode(text: &str) -> (mode: Option<u32>)
    ensures
        mode == parsed_mode(text@),
{
    match parse_number(text, true, 0xffff_ffff) {
        Some(mode) => Some(mode as u32),
        None => None,
    }
}

/// Reads one asset record `[origin, target, mode]`.
pub fn parse_asset(record: &Vec<String>) -> (asset: Result<Asset, AssetError>)
    ensures
        match asset {
            Ok(asset) => parsed_asset(record.deep_view()) == Ok::<AssetView, AssetError>(asset@),
            Err(reason) => parsed_asset(record.deep_view()) == Err::<AssetView, AssetError>(
                reason,
            ),
        },
{
    if record.len() < 1 {
        return Err(AssetError::MissingOrigin);
    }
    if record.len() < 2 {
        return Err(AssetError::MissingTarget);
    }
    if record.len() < 3 {
        return Err(AssetError::MissingMode);
    }
    let mode = match parse_mode(record[2].as_str()) {
        Some(mode) => mode,
        None => {
            return Err(AssetError::InvalidMode);
        },
    };
    match normalize_target(record[0].as_str(), record[1].as_str()) {
        Ok(target) => Ok(Asset { origin: record[0].clone(), target, mode }),
        Err(reason) => Err(reason),
    }
}

/// Reads the asset records in order, up to the first that is malformed.
pub fn parse_assets(records: &Vec<Vec<String>>) -> (assets: Result<Vec<Asset>, ConfigError>)
    ensures
        match assets {
            Ok(assets) => parsed_assets(records.deep_view()) == Ok::<
                Seq<AssetView>,
                ConfigError,
            >(assets.deep_view()),
            Err(error) => parsed_assets(records.deep_view()) == Err::<
                Seq<AssetView>,
                ConfigError,
            >(error),
        },
{
    let ghost all = records.deep_view();
    let mut assets: Vec<Asset> = Vec::new();
    let mut i: usize = 0;
    assert(assets.deep_view() =~= Seq::empty());
    while i < records.len()
        invariant
            i <= records.len(),
            all == records.deep_view(),
            parsed_assets(all.take(i as int)) == Ok::<Seq<AssetView>, ConfigError>(
                assets.deep_view(),
            ),
        decreases records.len() - i,
    {
        let ghost earlier = assets.deep_view();
        proof {
            assert(all.take(i + 1).drop_last() == all.take(i as int));
        }
        match parse_asset(&records[i]) {
            Ok(asset) => {
                assets.push(asset);
                assert(assets.deep_view() =~= earlier.push(asset@));
            },
            Err(reason) => {
                proof {
                    lemma_parse_error_stays(all, i + 1);
                }
                return Err(ConfigError::Asset { index: i, reason });
            },
        }
        i += 1;
    }
    assert(all.take(records.len() as int) == all);
    Ok(assets)
}

} // verus!
