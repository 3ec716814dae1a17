//! The asset pass: the files of a package and the directories above them.

use vstd::prelude::*;
use crate::asset::{parse_assets, parsed_assets, Asset, AssetView};
use crate::directories::{
    ancestors, covered, fresh, fresh_place, lemma_ancestors, lemma_contains_concat, lemma_fresh,
    EmittedDirectories,
};
use crate::entry::{directory_entry, file_entry, ArchiveEntry, EntryKind, EntryView};
use crate::error::Error;
use crate::tarball::{entries_written, Archive};

verus! {

/// One directory entry for each of `paths`, in their order.
pub open spec fn directories_at(paths: Seq<Seq<char>>, time: u64) -> Seq<EntryView> {
    Seq::new(paths.len(), |i: int| directory_entry(paths[i], time))
}

/// The directories that the assets emit, in the order in which they are
/// first met.
pub open spec fn emitted_by(assets: Seq<AssetView>) -> Seq<Seq<char>>
    decreases assets.len(),
{
    if assets.len() == 0 {
        Seq::empty()
    } else {
        let earlier = emitted_by(assets.drop_last());
        earlier + fresh(ancestors(assets.last().target), earlier)
    }
}

/// The file entry of an asset with `content`.
pub open spec fn asset_file(asset: AssetView, content: Seq<u8>, time: u64) -> EntryView {
    file_entry(asset.target, asset.mode, time, content)
}

/// The entries of one asset: the directories above its target that are not
/// among `emitted`, outermost first, then the file.
pub open spec fn entries_of_asset(
    asset: AssetView,
    content: Seq<u8>,
    emitted: Seq<Seq<char>>,
    time: u64,
) -> Seq<EntryView> {
    directories_at(fresh(ancestors(asset.target), emitted), time).push(
        asset_file(asset, content, time),
    )
}

/// The entries of the assets, in order: the content of the asset at `i`
/// is `contents[i]`.
pub open spec fn asset_plan(assets: Seq<AssetView>, contents: Seq<Seq<u8>>, time: u64) -> Seq<
    EntryView,
>
    decreases assets.len(),
{
    if assets.len() == 0 {
        Seq::empty()
    } else {
        let earlier = assets.drop_last();
        asset_plan(earlier, contents, time) + entries_of_asset(
            assets.last(),
            contents[assets.len() - 1],
            emitted_by(earlier),
            time,
        )
    }
}

/// The entries that the asset records call for, or why there are none: a
/// malformed record, or an asset without content.
pub open spec fn asset_entries_of(
    records: Seq<Seq<Seq<char>>>,
    contents: Seq<Seq<u8>>,
    time: u64,
) -> Result<Seq<EntryView>, Error> {
    match parsed_assets(records) {
        Err(error) => Err(Error::Config(error)),
        Ok(assets) => if contents.len() < assets.len() {
            Err(Error::MissingContent { asset: contents.len() as usize })
        } else {
            Ok(asset_plan(assets, contents, time))
        },
    }
}

/// Whether a directory entry for `path` stands among the first `count`
/// entries.
pub open spec fn directory_before(
    entries: Seq<EntryView>,
    count: int,
    path: Seq<char>,
    time: u64,
) -> bool {
    exists|i: int| 0 <= i < count && #[trigger] entries[i] == directory_entry(path, time)
}

/// The directory entries of the assets are those of the directories that
/// the assets emit: none of these is emitted twice, each has its entry, and
/// there is no other directory entry.
pub proof fn lemma_plan_directories(assets: Seq<AssetView>, contents: Seq<Seq<u8>>, time: u64)
    ensures
        ({
            let plan = asset_plan(assets, contents, time);
            let emitted = emitted_by(assets);
            &&& emitted.no_duplicates()
            &&& forall|i: int|
                0 <= i < emitted.len() ==> directory_before(
                    plan,
                    plan.len() as int,
                    #[trigger] emitted[i],
                    time,
                )
            &&& forall|i: int|
                0 <= i < plan.len() && (#[trigger] plan[i]).kind == EntryKind::Directory
                    ==> emitted.contains(plan[i].path)
        }),
    decreases assets.len(),
{
    if assets.len() > 0 {
        let front = assets.drop_last();
        let earlier = asset_plan(front, contents, time);
        let emitted = emitted_by(front);
        let above = ancestors(assets.last().target);
        let created = fresh(above, emitted);
        let all = emitted_by(assets);
        let plan = asset_plan(assets, contents, time);
        lemma_plan_directories(front, contents, time);
        lemma_fresh(above, emitted);
        assert forall|i: int, j: int| 0 <= i < all.len() && 0 <= j < all.len() && i != j
            implies all[i] != all[j] by {
            if i < emitted.len() && j >= emitted.len() {
                assert(emitted.contains(emitted[i]));
                assert(all[j] == created[j - emitted.len()]);
            }
            if j < emitted.len() && i >= emitted.len() {
                assert(emitted.contains(emitted[j]));
                assert(all[i] == created[i - emitted.len()]);
            }
        }
        assert forall|i: int| 0 <= i < all.len() implies directory_before(
            plan,
            plan.len() as int,
            #[trigger] all[i],
            time,
        ) by {
            if i < emitted.len() {
                assert(all[i] == emitted[i]);
                let k = choose|k: int|
                    0 <= k < earlier.len() && #[trigger] earlier[k] == directory_entry(
                        emitted[i],
                        time,
                    );
                assert(plan[k] == earlier[k]);
            } else {
                let k = earlier.len() + (i - emitted.len());
                assert(plan[k] == directory_entry(created[i - emitted.len()], time));
            }
        }
        assert forall|i: int|
            0 <= i < plan.len() && (#[trigger] plan[i]).kind
                == EntryKind::Directory implies all.contains(plan[i].path) by {
            if i < earlier.len() {
                assert(plan[i] == earlier[i]);
                lemma_contains_concat(emitted, created, plan[i].path);
            } else if i < earlier.len() + created.len() {
                assert(plan[i].path == created[i - earlier.len()]);
                assert(all[emitted.len() + (i - earlier.len())] == plan[i].path);
            }
        }
    }
}

/// No directory is emitted twice: two directory entries of the assets never
/// have the same path, whichever assets they are above.
pub proof fn lemma_directories_once(assets: Seq<AssetView>, contents: Seq<Seq<u8>>, time: u64)
    ensures
        ({
            let plan = asset_plan(assets, contents, time);
            forall|i: int, j: int|
                #![trigger plan[i], plan[j]]
                0 <= i < j < plan.len() && plan[i].kind == EntryKind::Directory && plan[j].kind
                    == EntryKind::Directory ==> plan[i].path != plan[j].path
        }),
    decreases assets.len(),
{
    if assets.len() > 0 {
        let front = assets.drop_last();
        let earlier = asset_plan(front, contents, time);
        let emitted = emitted_by(front);
        let created = fresh(ancestors(assets.last().target), emitted);
        let plan = asset_plan(assets, contents, time);
        lemma_directories_once(front, contents, time);
        lemma_plan_directories(front, contents, time);
        lemma_fresh(ancestors(assets.last().target), emitted);
        assert forall|i: int, j: int|
            #![trigger plan[i], plan[j]]
            0 <= i < j < plan.len() && plan[i].kind == EntryKind::Directory && plan[j].kind
                == EntryKind::Directory implies plan[i].path != plan[j].path by {
            if j < earlier.len() {
                assert(plan[i] == earlier[i] && plan[j] == earlier[j]);
            } else if j < earlier.len() + created.len() {
                assert(plan[j].path == created[j - earlier.len()]);
                if i < earlier.len() {
                    assert(plan[i] == earlier[i]);
                } else {
                    assert(plan[i].path == created[i - earlier.len()]);
                }
            }
        }
    }
}

/// Directories come before what lies beneath them: ahead of each entry of
/// the assets stands a directory entry for every directory above its path.
pub proof fn lemma_ancestors_first(assets: Seq<AssetView>, contents: Seq<Seq<u8>>, time: u64)
    ensures
        ({
            let plan = asset_plan(assets, contents, time);
            forall|k: int, above: int|
                #![trigger plan[k], ancestors(plan[k].path)[above]]
                0 <= k < plan.len() && 0 <= above < ancestors(plan[k].path).len() && (plan[k].kind
                    == EntryKind::File || ancestors(plan[k].path)[above] != plan[k].path)
                    ==> directory_before(plan, k, ancestors(plan[k].path)[above], time)
        }),
    decreases assets.len(),
{
    if assets.len() > 0 {
        let front = assets.drop_last();
        let earlier = asset_plan(front, contents, time);
        let emitted = emitted_by(front);
        let target = assets.last().target;
        let created = fresh(ancestors(target), emitted);
        let plan = asset_plan(assets, contents, time);
        lemma_ancestors_first(front, contents, time);
        lemma_plan_directories(front, contents, time);
        lemma_fresh(ancestors(target), emitted);
        assert forall|k: int, above: int|
            #![trigger plan[k], ancestors(plan[k].path)[above]]
            0 <= k < plan.len() && 0 <= above < ancestors(plan[k].path).len() && (plan[k].kind
                == EntryKind::File || ancestors(plan[k].path)[above]
                != plan[k].path) implies directory_before(
            plan,
            k,
            ancestors(plan[k].path)[above],
            time,
        ) by {
            let wanted = ancestors(plan[k].path)[above];
            if k < earlier.len() {
                assert(plan[k] == earlier[k]);
                assert(directory_before(earlier, k, ancestors(earlier[k].path)[above], time));
                let i = choose|i: int|
                    0 <= i < k && #[trigger] earlier[i] == directory_entry(wanted, time);
                assert(plan[i] == earlier[i]);
            } else {
                // The directory wanted is one of those above the target, and
                // all of those before the entry at `k` are covered.
                let count = k - earlier.len();
                let place: int = if count < created.len() {
                    fresh_place(ancestors(target), emitted, count)
                } else {
                    above
                };
                if count < created.len() {
                    assert(plan[k].path == created[count]);
                    lemma_ancestors(target, place);
                    assert(ancestors(plan[k].path) == ancestors(target).take(place + 1));
                    assert(wanted == ancestors(target)[above]);
                    assert(above < place);
                    assert(created.take(count).contains(wanted) || emitted.contains(wanted));
                } else {
                    assert(plan[k].path == target);
                    assert(created.take(count) == created);
                    assert(created.take(count).contains(wanted) || emitted.contains(wanted));
                }
                if emitted.contains(wanted) {
                    let e = choose|e: int| 0 <= e < emitted.len() && emitted[e] == wanted;
                    assert(directory_before(earlier, earlier.len() as int, emitted[e], time));
                    let i = choose|i: int|
                        0 <= i < earlier.len() && #[trigger] earlier[i] == directory_entry(
                            wanted,
                            time,
                        );
                    assert(plan[i] == earlier[i]);
                } else {
                    let found = created.take(count);
                    let c = choose|c: int| 0 <= c < found.len() && found[c] == wanted;
                    assert(plan[earlier.len() + c] == directory_entry(created[c], time));
                }
            }
        }
    }
}

/// Every entry of the assets bears the time of the build; a directory
/// entry has mode `0755` and no content; a file entry has the mode and the
/// content of its asset, under the asset's target; and every asset has its
/// file entry.
pub proof fn lemma_plan_shape(assets: Seq<AssetView>, contents: Seq<Seq<u8>>, time: u64)
    ensures
        ({
            let plan = asset_plan(assets, contents, time);
            &&& forall|k: int|
                0 <= k < plan.len() ==> {
                    let entry = #[trigger] plan[k];
                    &&& entry.mtime == time
                    &&& entry.kind == EntryKind::Directory ==> entry == directory_entry(
                        entry.path,
                        time,
                    )
                    &&& entry.kind == EntryKind::File ==> exists|i: int|
                        0 <= i < assets.len() && entry == asset_file(
                            #[trigger] assets[i],
                            contents[i],
                            time,
                        )
                }
            &&& forall|i: int|
                0 <= i < assets.len() ==> plan.contains(
                    asset_file(#[trigger] assets[i], contents[i], time),
                )
        }),
    decreases assets.len(),
{
    if assets.len() > 0 {
        let front = assets.drop_last();
        let earlier = asset_plan(front, contents, time);
        let plan = asset_plan(assets, contents, time);
        lemma_plan_shape(front, contents, time);
        assert forall|k: int| 0 <= k < plan.len() implies {
            let entry = #[trigger] plan[k];
            &&& entry.mtime == time
            &&& entry.kind == EntryKind::Directory ==> entry == directory_entry(entry.path, time)
            &&& entry.kind == EntryKind::File ==> exists|i: int|
                0 <= i < assets.len() && entry == asset_file(
                    #[trigger] assets[i],
                    contents[i],
                    time,
                )
        } by {
            let entry = plan[k];
            if k < earlier.len() {
                assert(entry == earlier[k]);
                if entry.kind == EntryKind::File {
                    let i = choose|i: int|
                        0 <= i < front.len() && entry == asset_file(
                            #[trigger] front[i],
                            contents[i],
                            time,
                        );
                    assert(assets[i] == front[i]);
                }
            } else if k == plan.len() - 1 {
                assert(entry == asset_file(
                    assets[assets.len() - 1],
                    contents[assets.len() - 1],
                    time,
                ));
            }
        }
        assert forall|i: int| 0 <= i < assets.len() implies plan.contains(
            asset_file(#[trigger] assets[i], contents[i], time),
        ) by {
            let wanted = asset_file(assets[i], contents[i], time);
            if i < front.len() {
                assert(front[i] == assets[i]);
                let k = choose|k: int| 0 <= k < earlier.len() && earlier[k] == wanted;
                assert(plan[k] == wanted);
            } else {
                assert(plan[plan.len() - 1] == wanted);
            }
        }
    }
}

/// The entries of assets that were parsed: for each asset the directories
/// above it that no earlier asset has emitted, then the file itself.
fn plan_assets<'a>(
    assets: &Vec<Asset>,
    contents: &'a Vec<Vec<u8>>,
    time: u64,
) -> (entries: Vec<ArchiveEntry<'a>>)
    requires
        assets.len() <= contents.len(),
    ensures
        entries.deep_view() == asset_plan(assets.deep_view(), contents.deep_view(), time),
{
    let ghost all = assets.deep_view();
    let ghost data = contents.deep_view();
    let mut emitted = EmittedDirectories::new();
    let mut entries: Vec<ArchiveEntry<'a>> = Vec::new();
    let mut i: usize = 0;
    while i < assets.len()
        invariant
            i <= assets.len() <= contents.len(),
            all == assets.deep_view(),
            data == contents.deep_view(),
            emitted.wf(),
            emitted@ == emitted_by(all.take(i as int)),
            entries.deep_view() == asset_plan(all.take(i as int), data, time),
        decreases assets.len() - i,
    {
        let asset = &assets[i];
        let ghost earlier = entries.deep_view();
        let ghost before = emitted@;
        let created = emitted.synthesize(asset.target.as_str());
        let ghost paths = created.deep_view();
        proof {
            assert(all.take(i + 1).drop_last() == all.take(i as int));
            assert(data[i as int] =~= contents[i as int]@);
        }
        let mut j: usize = 0;
        while j < created.len()
            invariant
                j <= created.len(),
                paths == created.deep_view(),
                entries.deep_view() == earlier + directories_at(paths, time).take(j as int),
            decreases created.len() - j,
        {
            let ghost so_far = entries.deep_view();
            let entry = ArchiveEntry::directory(created[j].clone(), time);
            entries.push(entry);
            proof {
                assert(so_far.push(entry@) =~= earlier + directories_at(paths, time).take(j + 1));
            }
            j += 1;
        }
        let ghost so_far = entries.deep_view();
        let entry = ArchiveEntry::file(
            asset.target.clone(),
            asset.mode,
            time,
            contents[i].as_slice(),
        );
        entries.push(entry);
        proof {
            assert(so_far.push(entry@) =~= earlier + entries_of_asset(
                asset@,
                data[i as int],
                before,
                time,
            ));
        }
        i += 1;
    }
    assert(all.take(assets.len() as int) == all);
    entries
}

/// The entries that the asset records call for: every record is read before
/// any entry is made.
pub fn asset_entries<'a>(
    records: &Vec<Vec<String>>,
    contents: &'a Vec<Vec<u8>>,
    time: u64,
) -> (entries: Result<Vec<ArchiveEntry<'a>>, Error>)
    ensures
        match entries {
            Ok(entries) => asset_entries_of(records.deep_view(), contents.deep_view(), time)
                == Ok::<Seq<EntryView>, Error>(entries.deep_view()),
            Err(error) => asset_entries_of(records.deep_view(), contents.deep_view(), time)
                == Err::<Seq<EntryView>, Error>(error),
        },
{
    let assets = match parse_assets(records) {
        Ok(assets) => assets,
        Err(error) => {
            return Err(Error::Config(error));
        },
    };
    if contents.len() < assets.len() {
        return Err(Error::MissingContent { asset: contents.len() });
    }
    Ok(plan_assets(&assets, contents, time))
}

/// Copies the assets into the archive: each file under its normalized
/// target, after the directories above it that are not in the archive yet.
/// Nothing is written unless every record is well-formed and has content.
pub fn copy_files(
    archive: &mut Archive,
    assets: &Vec<Vec<String>>,
    contents: &Vec<Vec<u8>>,
    time: u64,
) -> (outcome: Result<(), Error>)
    ensures
        match asset_entries_of(assets.deep_view(), contents.deep_view(), time) {
            Ok(entries) => entries_written(old(archive)@, final(archive)@, entries, outcome),
            Err(error) => outcome == Err::<(), Error>(error) && final(archive)@ == old(archive)@,
        },
{
    match asset_entries(assets, contents, time) {
        Ok(entries) => archive.append_entries(&entries),
        Err(error) => Err(error),
    }
}

} // verus!
