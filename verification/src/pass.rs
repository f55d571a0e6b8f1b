//! One compile pass: every eligible candidate is run through the engine, what
//! compiled is cached under its key, and what did not is reported.

use crate::cache::StyleCache;
use crate::eligibility::{
    eligible, eligible_files, eligible_of, lemma_eligible_of_contains, partial, stylesheet,
};
use crate::engine::{compile_file, pass_options};
use crate::key::{key_of, normalize_key};
use vstd::prelude::*;

verus! {

/// A file that the engine could not compile, with the engine's description
/// of what went wrong.
#[derive(Debug, PartialEq, Eq)]
pub struct Failure {
    pub path: String,
    pub message: String,
}

/// A [`Failure`] as plain data.
pub struct FailureView {
    pub path: Seq<char>,
    pub message: Seq<char>,
}

impl View for Failure {
    type V = FailureView;

    open spec fn view(&self) -> FailureView {
        FailureView { path: self.path@, message: self.message@ }
    }
}

/// What a pass produced: the cache, and one failure per file that did not
/// compile, in the order in which the files were tried.
#[derive(Debug)]
pub struct Pass {
    pub cache: StyleCache,
    pub failures: Vec<Failure>,
}

/// A [`Pass`] as plain data.
pub struct PassView {
    pub cache: Map<Seq<char>, Seq<char>>,
    pub failures: Seq<FailureView>,
}

impl View for Pass {
    type V = PassView;

    open spec fn view(&self) -> PassView {
        PassView {
            cache: self.cache@,
            failures: self.failures@.map_values(|failure: Failure| failure@),
        }
    }
}

/// What the engine made of one file, as plain data: the CSS, or the message.
pub type Outcome = Result<Seq<char>, Seq<char>>;

/// The outcome `outcome` as plain data.
pub open spec fn outcome_view(outcome: Result<String, String>) -> Outcome {
    match outcome {
        Ok(css) => Ok(css@),
        Err(message) => Err(message@),
    }
}

/// A pass in which nothing has been tried yet.
pub open spec fn empty_pass() -> PassView {
    PassView { cache: Map::empty(), failures: Seq::empty() }
}

/// What one more outcome makes of a pass: CSS is cached under the key of its
/// file, in place of whatever was cached there; a failure is added to the
/// failures and leaves the cache as it was.
pub open spec fn recorded(pass: PassView, path: Seq<char>, root: Seq<char>, outcome: Outcome) -> PassView {
    match outcome {
        Ok(css) => PassView { cache: pass.cache.insert(key_of(path, root), css), failures: pass.failures },
        Err(message) => PassView {
            cache: pass.cache,
            failures: pass.failures.push(FailureView { path, message }),
        },
    }
}

/// The pass over `root` in which the files of `results` were tried in order,
/// each with the outcome that stands beside it.
pub open spec fn assembled(results: Seq<(Seq<char>, Outcome)>, root: Seq<char>) -> PassView
    decreases results.len(),
{
    if results.len() == 0 {
        empty_pass()
    } else {
        recorded(assembled(results.drop_last(), root), results.last().0, root, results.last().1)
    }
}

/// Each path of `paths` beside the outcome at the same position.
pub open spec fn paired(paths: Seq<Seq<char>>, outcomes: Seq<Outcome>) -> Seq<(Seq<char>, Outcome)>
    recommends
        paths.len() == outcomes.len(),
{
    Seq::new(paths.len(), |i: int| (paths[i], outcomes[i]))
}

/// The results `results` as plain data.
pub open spec fn results_view(results: Seq<(String, Result<String, String>)>) -> Seq<
    (Seq<char>, Outcome),
> {
    results.map_values(|result: (String, Result<String, String>)| (result.0@, outcome_view(result.1)))
}

/// What `assembled` makes of one more result.
pub proof fn lemma_assembled_push(results: Seq<(Seq<char>, Outcome)>, root: Seq<char>, path: Seq<char>, outcome: Outcome)
    ensures
        assembled(results.push((path, outcome)), root) == recorded(
            assembled(results, root),
            path,
            root,
            outcome,
        ),
{
    assert(results.push((path, outcome)).drop_last() =~= results);
}

/// The cache of a pass holds a key exactly when one of the files tried
/// compiled and has that key, and what it holds under the key is the CSS of
/// such a file.
pub proof fn lemma_cached_keys(results: Seq<(Seq<char>, Outcome)>, root: Seq<char>, key: Seq<char>)
    ensures
        assembled(results, root).cache.contains_key(key) <==> exists|i: int|
            0 <= i < results.len() && (#[trigger] results[i]).1 is Ok && key_of(results[i].0, root)
                == key,
        assembled(results, root).cache.contains_key(key) ==> exists|i: int|
            0 <= i < results.len() && (#[trigger] results[i]).1 == Ok::<Seq<char>, Seq<char>>(
                assembled(results, root).cache[key],
            ) && key_of(results[i].0, root) == key,
    decreases results.len(),
{
    if results.len() > 0 {
        let front = results.drop_last();
        lemma_cached_keys(front, root, key);
        if assembled(results, root).cache.contains_key(key) {
            if results.last().1 is Ok && key_of(results.last().0, root) == key {
                assert(results[results.len() - 1].1 is Ok);
                assert(results[results.len() - 1].1 == Ok::<Seq<char>, Seq<char>>(
                    assembled(results, root).cache[key],
                ));
            } else {
                let i = choose|i: int|
                    0 <= i < front.len() && (#[trigger] front[i]).1 is Ok && key_of(front[i].0, root)
                        == key;
                assert(results[i] == front[i]);
                let j = choose|j: int|
                    0 <= j < front.len() && (#[trigger] front[j]).1 == Ok::<Seq<char>, Seq<char>>(
                        assembled(front, root).cache[key],
                    ) && key_of(front[j].0, root) == key;
                assert(results[j] == front[j]);
            }
        }
        if exists|i: int|
            0 <= i < results.len() && (#[trigger] results[i]).1 is Ok && key_of(results[i].0, root)
                == key {
            let i = choose|i: int|
                0 <= i < results.len() && (#[trigger] results[i]).1 is Ok && key_of(
                    results[i].0,
                    root,
                ) == key;
            if i < front.len() {
                assert(front[i] == results[i]);
            }
        }
    }
}

/// Where several files of a pass have one key, the cache holds under it the
/// CSS of the last of them that compiled.
pub proof fn lemma_last_write_wins(
    results: Seq<(Seq<char>, Outcome)>,
    root: Seq<char>,
    i: int,
    css: Seq<char>,
)
    requires
        0 <= i < results.len(),
        results[i].1 == Ok::<Seq<char>, Seq<char>>(css),
        forall|j: int|
            i < j < results.len() && (#[trigger] results[j]).1 is Ok ==> key_of(results[j].0, root)
                != key_of(results[i].0, root),
    ensures
        assembled(results, root).cache.contains_key(key_of(results[i].0, root)),
        assembled(results, root).cache[key_of(results[i].0, root)] == css,
    decreases results.len(),
{
    let front = results.drop_last();
    if i < results.len() - 1 {
        assert(front[i] == results[i]);
        assert forall|j: int| i < j < front.len() && (#[trigger] front[j]).1 is Ok implies key_of(
            front[j].0,
            root,
        ) != key_of(front[i].0, root) by {
            assert(front[j] == results[j]);
        }
        lemma_last_write_wins(front, root, i, css);
        assert(results[results.len() - 1].1 is Ok ==> key_of(results.last().0, root) != key_of(
            results[i].0,
            root,
        ));
    }
}

/// Which keys the cache of a pass holds does not depend on the order in which
/// the files were tried: two passes over the same results, in any two orders,
/// cache the same keys. What is held under a key may differ where several
/// files have it.
pub proof fn lemma_key_set_ignores_order(
    results: Seq<(Seq<char>, Outcome)>,
    reordered: Seq<(Seq<char>, Outcome)>,
    root: Seq<char>,
)
    requires
        results.to_multiset() == reordered.to_multiset(),
    ensures
        assembled(results, root).cache.dom() == assembled(reordered, root).cache.dom(),
{
    assert forall|key: Seq<char>|
        assembled(results, root).cache.contains_key(key) <==> assembled(
            reordered,
            root,
        ).cache.contains_key(key) by {
        lemma_cached_keys(results, root, key);
        lemma_cached_keys(reordered, root, key);
        results.to_multiset_ensures();
        reordered.to_multiset_ensures();
        if assembled(results, root).cache.contains_key(key) {
            let i = choose|i: int|
                0 <= i < results.len() && (#[trigger] results[i]).1 is Ok && key_of(results[i].0, root)
                    == key;
            assert(results.contains(results[i]));
            assert(reordered.to_multiset().count(results[i]) > 0);
            let j = choose|j: int| 0 <= j < reordered.len() && reordered[j] == results[i];
            assert(reordered[j].1 is Ok);
        }
        if assembled(reordered, root).cache.contains_key(key) {
            let i = choose|i: int|
                0 <= i < reordered.len() && (#[trigger] reordered[i]).1 is Ok && key_of(
                    reordered[i].0,
                    root,
                ) == key;
            assert(reordered.contains(reordered[i]));
            assert(results.to_multiset().count(reordered[i]) > 0);
            let j = choose|j: int| 0 <= j < results.len() && results[j] == reordered[i];
            assert(results[j].1 is Ok);
        }
    }
    assert(assembled(results, root).cache.dom() =~= assembled(reordered, root).cache.dom());
}

/// A pass reports a failure exactly for the files tried that did not
/// compile, each with the engine's message.
pub proof fn lemma_reported_failures(
    results: Seq<(Seq<char>, Outcome)>,
    root: Seq<char>,
    failure: FailureView,
)
    ensures
        assembled(results, root).failures.contains(failure) <==> results.contains(
            (failure.path, Err::<Seq<char>, Seq<char>>(failure.message)),
        ),
    decreases results.len(),
{
    let wanted = (failure.path, Err::<Seq<char>, Seq<char>>(failure.message));
    if results.len() > 0 {
        let front = results.drop_last();
        lemma_reported_failures(front, root, failure);
        let reported = assembled(results, root).failures;
        let earlier = assembled(front, root).failures;
        if reported.contains(failure) {
            let k = choose|k: int| 0 <= k < reported.len() && reported[k] == failure;
            if k < earlier.len() {
                assert(earlier[k] == failure);
                let i = choose|i: int| 0 <= i < front.len() && front[i] == wanted;
                assert(results[i] == wanted);
            } else {
                assert(results[results.len() - 1] == wanted);
            }
        }
        if results.contains(wanted) {
            let i = choose|i: int| 0 <= i < results.len() && results[i] == wanted;
            if i < front.len() {
                assert(front[i] == wanted);
                let k = choose|k: int| 0 <= k < earlier.len() && earlier[k] == failure;
                assert(reported[k] == failure);
            } else {
                assert(reported[reported.len() - 1] == failure);
            }
        }
    }
}

/// A key is in the cache of a pass exactly when some candidate is no
/// partial, carries a stylesheet extension, compiled, and has that key.
pub proof fn lemma_cache_membership(
    candidates: Seq<Seq<char>>,
    outcomes: Seq<Outcome>,
    root: Seq<char>,
    key: Seq<char>,
)
    requires
        outcomes.len() == eligible_of(candidates).len(),
    ensures
        assembled(paired(eligible_of(candidates), outcomes), root).cache.contains_key(key)
            <==> exists|i: int|
            0 <= i < outcomes.len() && candidates.contains(#[trigger] eligible_of(candidates)[i])
                && !partial(eligible_of(candidates)[i]) && stylesheet(eligible_of(candidates)[i])
                && outcomes[i] is Ok && key_of(eligible_of(candidates)[i], root) == key,
{
    let tried = eligible_of(candidates);
    let results = paired(tried, outcomes);
    lemma_cached_keys(results, root, key);
    assert forall|i: int| 0 <= i < tried.len() implies candidates.contains(#[trigger] tried[i])
        && eligible(tried[i]) by {
        lemma_eligible_of_contains(candidates, tried[i]);
    }
    if assembled(results, root).cache.contains_key(key) {
        let i = choose|i: int|
            0 <= i < results.len() && (#[trigger] results[i]).1 is Ok && key_of(results[i].0, root)
                == key;
        assert(results[i] == (tried[i], outcomes[i]));
        assert(candidates.contains(tried[i]) && eligible(tried[i]));
    }
    if exists|i: int|
        0 <= i < outcomes.len() && candidates.contains(#[trigger] tried[i]) && !partial(tried[i])
            && stylesheet(tried[i]) && outcomes[i] is Ok && key_of(tried[i], root) == key {
        let i = choose|i: int|
            0 <= i < outcomes.len() && candidates.contains(#[trigger] tried[i]) && !partial(
                tried[i],
            ) && stylesheet(tried[i]) && outcomes[i] is Ok && key_of(tried[i], root) == key;
        assert(results[i].1 is Ok && key_of(results[i].0, root) == key);
    }
}

impl Pass {
    /// A pass in which nothing has been tried yet.
    pub fn new() -> (pass: Pass)
        ensures
            pass@ == empty_pass(),
    {
        let pass = Pass { cache: StyleCache::new(), failures: Vec::new() };
        assert(pass@.failures =~= Seq::<FailureView>::empty());
        pass
    }

    /// Takes in what the engine made of the file at `path`.
    pub fn record(&mut self, path: &str, root: &str, outcome: Result<String, String>)
        ensures
            final(self)@ == recorded(old(self)@, path@, root@, outcome_view(outcome)),
    {
        let ghost before = self@;
        match outcome {
            Ok(css) => {
                let key = normalize_key(path, root);
                self.cache.insert(key, css);
                assert(self@.failures =~= before.failures);
            },
            Err(message) => {
                let failure = Failure { path: path.to_owned(), message };
                self.failures.push(failure);
                assert(self@.failures =~= before.failures.push(failure@));
            },
        }
    }
}

/// The pass over `root` in which the files of `results` were tried in order,
/// each with the outcome that stands beside it.
pub fn assemble(results: Vec<(String, Result<String, String>)>, root: &str) -> (pass: Pass)
    ensures
        pass@ == assembled(results_view(results@), root@),
{
    let mut pass = Pass::new();
    let ghost all = results_view(results@);
    let mut i: usize = 0;
    while i < results.len()
        invariant
            0 <= i <= results.len(),
            all == results_view(results@),
            pass@ == assembled(all.take(i as int), root@),
        decreases results.len() - i,
    {
        proof {
            lemma_assembled_push(all.take(i as int), root@, all[i as int].0, all[i as int].1);
            assert(all.take(i + 1) =~= all.take(i as int).push(all[i as int]));
        }
        let outcome = match &results[i].1 {
            Ok(css) => Ok(css.clone()),
            Err(message) => Err(message.clone()),
        };
        pass.record(results[i].0.as_str(), root, outcome);
        i += 1;
    }
    proof {
        assert(all.take(results.len() as int) =~= all);
    }
    pass
}

/// Runs one pass over `root`: the eligible files among `candidates` are
/// compiled in order, with all of them as the search path for imports.
///
/// What the engine makes of a file is not known here. Whatever it is, the
/// pass is the one assembled from the eligible files and some outcome for
/// each: a file that compiled is cached under its key, a file that did not
/// is reported and leaves no entry, and no file stops the pass.
pub fn compile(candidates: &Vec<String>, root: &str) -> (pass: Pass)
    ensures
        exists|outcomes: Seq<Outcome>|
            outcomes.len() == eligible_of(candidates.deep_view()).len() && pass@ == #[trigger] assembled(
                paired(eligible_of(candidates.deep_view()), outcomes),
                root@,
            ),
{
    let paths = eligible_files(candidates);
    let options = pass_options(&paths);
    let mut pass = Pass::new();
    let ghost eligible = paths.deep_view();
    let ghost mut outcomes: Seq<Outcome> = Seq::empty();
    let mut i: usize = 0;
    while i < paths.len()
        invariant
            0 <= i <= paths.len(),
            eligible == paths.deep_view(),
            options.accepted(),
            outcomes.len() == i,
            pass@ == assembled(paired(eligible.take(i as int), outcomes), root@),
        decreases paths.len() - i,
    {
        let outcome = compile_file(paths[i].as_str(), &options);
        proof {
            let tried = paired(eligible.take(i as int), outcomes);
            let outcome = outcome_view(outcome);
            lemma_assembled_push(tried, root@, eligible[i as int], outcome);
            assert(paired(eligible.take(i + 1), outcomes.push(outcome)) =~= tried.push(
                (eligible[i as int], outcome),
            ));
            outcomes = outcomes.push(outcome);
        }
        pass.record(paths[i].as_str(), root, outcome);
        i += 1;
    }
    proof {
        assert(eligible.take(paths.len() as int) =~= eligible);
    }
    pass
}

} // verus!
