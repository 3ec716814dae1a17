//! The directories above a path, and which of them are still to be emitted.

use vstd::prelude::*;
use crate::text::{push_char, to_chars};

verus! {

/// The directories above `path`, outermost first: every prefix of `path`
/// that ends just after a `/`.
pub open spec fn ancestors(path: Seq<char>) -> Seq<Seq<char>>
    decreases path.len(),
{
    if path.len() == 0 {
        Seq::empty()
    } else if path.last() == '/' {
        ancestors(path.drop_last()).push(path)
    } else {
        ancestors(path.drop_last())
    }
}

/// Those of `candidates` that are not in `emitted`, each once, in the order
/// in which they first occur.
pub open spec fn fresh(candidates: Seq<Seq<char>>, emitted: Seq<Seq<char>>) -> Seq<Seq<char>>
    decreases candidates.len(),
{
    if candidates.len() == 0 {
        Seq::empty()
    } else {
        let earlier = fresh(candidates.drop_last(), emitted);
        let last = candidates.last();
        if emitted.contains(last) || earlier.contains(last) {
            earlier
        } else {
            earlier.push(last)
        }
    }
}

/// A sequence made of two holds what either of them holds.
pub proof fn lemma_contains_concat<T>(first: Seq<T>, second: Seq<T>, item: T)
    ensures
        (first + second).contains(item) <==> first.contains(item) || second.contains(item),
{
    let both = first + second;
    if both.contains(item) {
        let k = choose|k: int| 0 <= k < both.len() && both[k] == item;
        if k < first.len() {
            assert(first[k] == item);
        } else {
            assert(second[k - first.len()] == item);
        }
    }
    if first.contains(item) {
        let k = choose|k: int| 0 <= k < first.len() && first[k] == item;
        assert(both[k] == item);
    }
    if second.contains(item) {
        let k = choose|k: int| 0 <= k < second.len() && second[k] == item;
        assert(both[first.len() + k] == item);
    }
}

/// Adding what it does not hold to a sequence without duplicates makes no
/// duplicate.
proof fn lemma_push_distinct<T>(items: Seq<T>, item: T)
    requires
        items.no_duplicates(),
        !items.contains(item),
    ensures
        items.push(item).no_duplicates(),
{
    let longer = items.push(item);
    assert forall|i: int, j: int| 0 <= i < longer.len() && 0 <= j < longer.len() && i != j
        implies longer[i] != longer[j] by {
        if i < items.len() {
            assert(items.contains(items[i]));
        }
        if j < items.len() {
            assert(items.contains(items[j]));
        }
    }
}

/// The directories above a path are its own prefixes, shorter ones first,
/// and those above one of them are that one and the ones before it.
pub proof fn lemma_ancestors(path: Seq<char>, place: int)
    requires
        0 <= place < ancestors(path).len(),
    ensures
        ({
            let above = ancestors(path);
            &&& 0 < above[place].len() <= path.len()
            &&& above[place] == path.take(above[place].len() as int)
            &&& above[place].last() == '/'
            &&& ancestors(above[place]) == above.take(place + 1)
            &&& forall|other: int| 0 <= other < place ==> above[other].len() < above[place].len()
        }),
    decreases path.len(),
{
    let shorter = path.drop_last();
    let above = ancestors(shorter);
    if place < above.len() {
        lemma_ancestors(shorter, place);
        assert(shorter.take(above[place].len() as int) == path.take(above[place].len() as int));
        assert(above.take(place + 1) == ancestors(path).take(place + 1));
    } else {
        assert(path.take(path.len() as int) == path);
        assert(ancestors(path).take(place + 1) == ancestors(path));
        assert forall|other: int| 0 <= other < place implies ancestors(path)[other].len()
            < path.len() by {
            lemma_ancestors(shorter, other);
        }
    }
}

/// The place among the candidates of the fresh one at `i`.
pub open spec fn fresh_place(candidates: Seq<Seq<char>>, emitted: Seq<Seq<char>>, i: int) -> int
    decreases candidates.len(),
{
    if candidates.len() == 0 {
        0
    } else if i < fresh(candidates.drop_last(), emitted).len() {
        fresh_place(candidates.drop_last(), emitted, i)
    } else {
        candidates.len() - 1
    }
}

/// Whether each of the first `count` candidates is in `emitted` or in
/// `found`.
pub open spec fn covered(
    candidates: Seq<Seq<char>>,
    count: int,
    emitted: Seq<Seq<char>>,
    found: Seq<Seq<char>>,
) -> bool {
    forall|i: int|
        0 <= i < count ==> emitted.contains(#[trigger] candidates[i]) || found.contains(
            candidates[i],
        )
}

/// What is fresh among the candidates was not emitted and occurs once; all
/// candidates are emitted or fresh; and the fresh ones keep their order:
/// each is the candidate at its place, before which every candidate was
/// emitted or is fresh already.
pub proof fn lemma_fresh(candidates: Seq<Seq<char>>, emitted: Seq<Seq<char>>)
    ensures
        ({
            let created = fresh(candidates, emitted);
            &&& created.no_duplicates()
            &&& forall|i: int| 0 <= i < created.len() ==> !emitted.contains(#[trigger] created[i])
            &&& covered(candidates, candidates.len() as int, emitted, created)
            &&& forall|i: int|
                #![trigger fresh_place(candidates, emitted, i)]
                0 <= i < created.len() ==> {
                    let place = fresh_place(candidates, emitted, i);
                    &&& 0 <= place < candidates.len()
                    &&& candidates[place] == created[i]
                    &&& covered(candidates, place, emitted, created.take(i))
                }
        }),
    decreases candidates.len(),
{
    if candidates.len() > 0 {
        let front = candidates.drop_last();
        let last = candidates.last();
        let earlier = fresh(front, emitted);
        let all = fresh(candidates, emitted);
        lemma_fresh(front, emitted);
        assert forall|i: int| 0 <= i < front.len() implies front[i] == candidates[i] by {}
        if !(emitted.contains(last) || earlier.contains(last)) {
            lemma_push_distinct(earlier, last);
        }
        assert forall|i: int| 0 <= i < candidates.len() implies emitted.contains(
            #[trigger] candidates[i],
        ) || all.contains(candidates[i]) by {
            if i < front.len() {
                assert(front[i] == candidates[i]);
                if earlier.contains(front[i]) {
                    let k = choose|k: int| 0 <= k < earlier.len() && earlier[k] == front[i];
                    assert(all[k] == front[i]);
                }
            } else if earlier.contains(last) {
                let k = choose|k: int| 0 <= k < earlier.len() && earlier[k] == last;
                assert(all[k] == last);
            } else if !emitted.contains(last) {
                assert(all[all.len() - 1] == last);
            }
        }
        assert forall|i: int|
            #![trigger fresh_place(candidates, emitted, i)]
            0 <= i < all.len() implies {
            &&& 0 <= fresh_place(candidates, emitted, i) < candidates.len()
            &&& candidates[fresh_place(candidates, emitted, i)] == all[i]
            &&& covered(candidates, fresh_place(candidates, emitted, i), emitted, all.take(i))
        } by {
            let place = fresh_place(candidates, emitted, i);
            if i < earlier.len() {
                assert(place == fresh_place(front, emitted, i));
                assert(earlier.take(i) == all.take(i));
                assert(front[place] == candidates[place]);
                assert forall|k: int| 0 <= k < place implies emitted.contains(
                    #[trigger] candidates[k],
                ) || all.take(i).contains(candidates[k]) by {
                    assert(front[k] == candidates[k]);
                }
            } else {
                assert(all.take(i) == earlier);
                assert forall|k: int| 0 <= k < place implies emitted.contains(
                    #[trigger] candidates[k],
                ) || all.take(i).contains(candidates[k]) by {
                    assert(front[k] == candidates[k]);
                }
            }
        }
    }
}

/// The directories that have been emitted so far, in the order in which
/// they were, and none of them twice.
pub struct EmittedDirectories {
    paths: Vec<String>,
}

impl View for EmittedDirectories {
    type V = Seq<Seq<char>>;

    closed spec fn view(&self) -> Seq<Seq<char>> {
        self.paths.deep_view()
    }
}

impl EmittedDirectories {
    /// Nothing has been emitted twice.
    pub open spec fn wf(&self) -> bool {
        self@.no_duplicates()
    }

    /// No directory has been emitted yet.
    pub fn new() -> (emitted: EmittedDirectories)
        ensures
            emitted@ == Seq::<Seq<char>>::empty(),
            emitted.wf(),
    {
        let emitted = EmittedDirectories { paths: Vec::new() };
        emitted
    }

    /// Whether `path` has been emitted.
    pub fn contains(&self, path: &str) -> (found: bool)
        ensures
            found == self@.contains(path@),
    {
        let wanted = path.to_owned();
        let mut i: usize = 0;
        while i < self.paths.len()
            invariant
                i <= self.paths.len(),
                wanted@ == path@,
                forall|j: int| 0 <= j < i ==> self@[j] != path@,
            decreases self.paths.len() - i,
        {
            if self.paths[i] == wanted {
                assert(self@[i as int] == path@);
                return true;
            }
            i += 1;
        }
        false
    }

    /// Emits the directories above `target` that have not been emitted
    /// yet, outermost first, and records them as emitted.
    pub fn synthesize(&mut self, target: &str) -> (created: Vec<String>)
        ensures
            created.deep_view() == fresh(ancestors(target@), old(self)@),
            final(self)@ == old(self)@ + created.deep_view(),
            old(self).wf() ==> final(self).wf(),
    {
        let chars = to_chars(target);
        let mut created: Vec<String> = Vec::new();
        let mut prefix = String::new();
        let ghost before = self@;
        let mut i: usize = 0;
        while i < chars.len()
            invariant
                i <= chars.len(),
                chars@ == target@,
                prefix@ == chars@.take(i as int),
                created.deep_view() == fresh(ancestors(chars@.take(i as int)), before),
                self@ == before + created.deep_view(),
                before.no_duplicates() ==> self@.no_duplicates(),
            decreases chars.len() - i,
        {
            let c = chars[i];
            push_char(&mut prefix, c);
            proof {
                let next = chars@.take(i + 1);
                assert(next.drop_last() == chars@.take(i as int));
                assert(next == prefix@);
            }
            let ghost earlier = created.deep_view();
            let ghost emitted = self@;
            proof {
                if c == '/' {
                    assert(ancestors(prefix@).drop_last() == ancestors(chars@.take(i as int)));
                    lemma_contains_concat(before, earlier, prefix@);
                }
            }
            if c == '/' && !self.contains(prefix.as_str()) {
                created.push(prefix.clone());
                self.paths.push(prefix.clone());
                proof {
                    assert(self@ =~= emitted.push(prefix@));
                    if before.no_duplicates() {
                        lemma_push_distinct(emitted, prefix@);
                    }
                }
            }
            i += 1;
        }
        assert(chars@.take(chars.len() as int) == chars@);
        created
    }
}

} // verus!
