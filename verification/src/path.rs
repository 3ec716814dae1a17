//! The place of an asset in the archive.

use vstd::prelude::*;
use crate::error::AssetError;
use crate::text::{push_char, push_chars, to_chars};

verus! {

/// `target` without one `/` in front, where it has one.
pub open spec fn strip_leading_slash(target: Seq<char>) -> Seq<char> {
    if target.len() > 0 && target[0] == '/' {
        target.subrange(1, target.len() as int)
    } else {
        target
    }
}

/// Where the final segment of `path` begins: just after its last `/`, or
/// at 0 where it has none.
pub open spec fn file_name_start(path: Seq<char>) -> int
    decreases path.len(),
{
    if path.len() == 0 {
        0
    } else if path.last() == '/' {
        path.len() as int
    } else {
        file_name_start(path.drop_last())
    }
}

/// The final segment of `path`: what follows its last `/`.
pub open spec fn file_name(path: Seq<char>) -> Seq<char> {
    path.subrange(file_name_start(path), path.len() as int)
}

/// Whether the final segment of `path` names a file: it is not empty and
/// is neither `.` nor `..`.
pub open spec fn has_file_name(path: Seq<char>) -> bool {
    let name = file_name(path);
    &&& name.len() > 0
    &&& name != seq!['.']
    &&& name != seq!['.', '.']
}

/// Whether a declared target names a directory, into which the file goes
/// under its own name.
pub open spec fn names_directory(target: Seq<char>) -> bool {
    target.len() > 0 && target.last() == '/'
}

/// The place in the archive of an asset declared with `origin` and `target`.
pub open spec fn normalized_target(origin: Seq<char>, target: Seq<char>) -> Seq<char> {
    let base = seq!['.', '/'] + strip_leading_slash(target);
    if names_directory(target) {
        base + file_name(origin)
    } else {
        base
    }
}

/// What normalizing `target` for `origin` gives: the place in the archive,
/// or the reason why there is none.
pub open spec fn normalization(origin: Seq<char>, target: Seq<char>) -> Result<
    Seq<char>,
    AssetError,
> {
    if target.len() == 0 {
        Err(AssetError::EmptyTarget)
    } else if names_directory(target) && !has_file_name(origin) {
        Err(AssetError::NoFileName)
    } else {
        Ok(normalized_target(origin, target))
    }
}

/// The final segment of a path has no `/` in it, and a `/` stands just
/// before it unless it begins the path.
pub proof fn lemma_file_name(path: Seq<char>)
    ensures
        0 <= file_name_start(path) <= path.len(),
        forall|i: int| file_name_start(path) <= i < path.len() ==> path[i] != '/',
        file_name_start(path) > 0 ==> path[file_name_start(path) - 1] == '/',
        !file_name(path).contains('/'),
    decreases path.len(),
{
    if path.len() > 0 && path.last() != '/' {
        let front = path.drop_last();
        lemma_file_name(front);
        assert forall|i: int| file_name_start(path) <= i < path.len() implies path[i] != '/' by {
            if i < front.len() {
                assert(front[i] == path[i]);
            }
        }
    }
    let name = file_name(path);
    assert forall|i: int| 0 <= i < name.len() implies name[i] != '/' by {
        assert(name[i] == path[file_name_start(path) + i]);
    }
}

/// A normalized target begins with `./` and does not end with `/`.
pub proof fn lemma_normalized_shape(origin: Seq<char>, target: Seq<char>)
    requires
        normalization(origin, target) is Ok,
    ensures
        ({
            let place = normalized_target(origin, target);
            &&& place.len() > 2
            &&& place[0] == '.'
            &&& place[1] == '/'
            &&& place.last() != '/'
        }),
{
    lemma_file_name(origin);
    let stripped = strip_leading_slash(target);
    if names_directory(target) {
        let name = file_name(origin);
        assert(name.contains(name.last()));
    } else {
        assert(stripped.len() > 0);
        assert(stripped.last() == target.last());
    }
}

/// A `/` in front of a target changes nothing: the asset goes to the same
/// place with it and without it.
pub proof fn lemma_leading_slash(origin: Seq<char>, target: Seq<char>)
    requires
        target.len() > 0,
        target[0] != '/',
    ensures
        normalization(origin, seq!['/'] + target) == normalization(origin, target),
{
    let rooted = seq!['/'] + target;
    assert(strip_leading_slash(rooted) =~= target);
    assert(rooted.last() == target.last());
}

/// The final segment of `path`, as index of its first character.
fn find_file_name(path: &Vec<char>) -> (start: usize)
    ensures
        start == file_name_start(path@),
        start <= path.len(),
{
    let mut start: usize = path.len();
    assert(path@.take(path.len() as int) == path@);
    while start > 0 && path[start - 1] != '/'
        invariant
            start <= path.len(),
            file_name_start(path@) == file_name_start(path@.take(start as int)),
        decreases start,
    {
        assert(path@.take(start as int).drop_last() == path@.take(start - 1));
        start -= 1;
    }
    start
}

/// The place in the archive of an asset: `target` without a leading `/`,
/// with the file name of `origin` added where `target` ends in `/`, and
/// with `./` in front.
pub fn normalize_target(origin: &str, target: &str) -> (place: Result<String, AssetError>)
    ensures
        match place {
            Ok(path) => normalization(origin@, target@) == Ok::<Seq<char>, AssetError>(path@),
            Err(reason) => normalization(origin@, target@) == Err::<Seq<char>, AssetError>(reason),
        },
{
    let declared = to_chars(target);
    if declared.len() == 0 {
        return Err(AssetError::EmptyTarget);
    }
    let from: usize = if declared[0] == '/' { 1 } else { 0 };
    let mut place = String::new();
    push_char(&mut place, '.');
    push_char(&mut place, '/');
    push_chars(&mut place, &declared, from, declared.len());
    assert(place@ =~= seq!['.', '/'] + strip_leading_slash(target@));
    if declared[declared.len() - 1] == '/' {
        let source = to_chars(origin);
        let start = find_file_name(&source);
        let length = source.len() - start;
        let dots = length == 1 && source[start] == '.' || length == 2 && source[start] == '.'
            && source[start + 1] == '.';
        proof {
            let name = file_name(origin@);
            if length == 1 && name == seq!['.'] {
                assert(name[0] == '.');
            }
            if dots {
                assert(name =~= seq!['.'] || name =~= seq!['.', '.']);
            }
        }
        if length == 0 || dots {
            return Err(AssetError::NoFileName);
        }
        push_chars(&mut place, &source, start, source.len());
    }
    Ok(place)
}

} // verus!
