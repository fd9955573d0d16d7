//! Semantics of the archival pipeline: moving retirement candidates out of
//! the pool.
//!
//! A run attempts every candidate exactly once, in order. A candidate whose
//! file already exists at the destination was archived by an earlier run and
//! is skipped without error; one whose source cannot be read fails and
//! changes nothing (the source is deleted only after a completed copy);
//! otherwise the file appears at the destination and leaves the source.
//! Failures never abort the remaining candidates; the run as a whole fails
//! exactly when some candidate failed. The filesystem is modeled as the two
//! sets of pool-relative paths a run touches: readable source files and
//! files already present at the destination.

use vstd::prelude::*;
use crate::artifact::RetirementCandidate;
use crate::strutil::str_eq;

verus! {

/// Outcome of handling one candidate.
#[derive(Debug, Clone, Copy, PartialEq, Eq, Structural)]
pub enum MoveOutcome {
    Skipped,
    Moved,
    Failed,
}

/// What the mover must do for one candidate, given whether the destination
/// file already exists.
#[derive(Debug, Clone, Copy, PartialEq, Eq, Structural)]
pub enum MoveDirective {
    SkipExisting,
    CopyThenDelete,
}

/// The per-candidate decision: a candidate whose destination file already
/// exists was archived by an earlier run and is skipped without error —
/// re-running the pipeline must not fail or duplicate work. Otherwise the
/// destination's directory is created, the source copied there, and the
/// source deleted only after the copy has fully succeeded.
pub fn plan_move(dest_exists: bool) -> (d: MoveDirective)
    ensures
        (d == MoveDirective::SkipExisting) <==> dest_exists,
        (d == MoveDirective::CopyThenDelete) <==> !dest_exists,
{
    if dest_exists {
        MoveDirective::SkipExisting
    } else {
        MoveDirective::CopyThenDelete
    }
}

/// The filesystem as one run sees it: the readable files under the source
/// pool root and the files already present under the destination root, as
/// pool-relative paths.
#[verifier::ext_equal]
pub struct PoolView {
    pub source: Set<Seq<char>>,
    pub dest: Set<Seq<char>>,
}

/// One candidate's move: skip when the destination already has the file,
/// fail (changing nothing) when the source is unreadable, otherwise the
/// file changes sides.
pub open spec fn move_result(fs: PoolView, path: Seq<char>) -> (PoolView, MoveOutcome) {
    if fs.dest.contains(path) {
        (fs, MoveOutcome::Skipped)
    } else if !fs.source.contains(path) {
        (fs, MoveOutcome::Failed)
    } else {
        (
            PoolView { source: fs.source.remove(path), dest: fs.dest.insert(path) },
            MoveOutcome::Moved,
        )
    }
}

/// A whole run: every path attempted once, in order.
pub open spec fn run_result(fs: PoolView, paths: Seq<Seq<char>>) -> (PoolView, Seq<MoveOutcome>)
    decreases paths.len(),
{
    if paths.len() == 0 {
        (fs, Seq::empty())
    } else {
        let step = move_result(fs, paths[0]);
        let rest = run_result(step.0, paths.drop_first());
        (rest.0, seq![step.1] + rest.1)
    }
}

/// Some candidate failed.
pub open spec fn any_failed(os: Seq<MoveOutcome>) -> bool {
    exists|i: int| 0 <= i < os.len() && os[i] == MoveOutcome::Failed
}

/// The pool-relative paths of the candidates, in order.
pub open spec fn candidate_paths(cs: Seq<RetirementCandidate>) -> Seq<Seq<char>> {
    cs.map_values(|c: RetirementCandidate| c.meta.filename@)
}

proof fn lemma_absent_stays_absent(fs: PoolView, paths: Seq<Seq<char>>, p: Seq<char>)
    requires
        !fs.source.contains(p),
        !fs.dest.contains(p),
    ensures
        !run_result(fs, paths).0.source.contains(p),
        !run_result(fs, paths).0.dest.contains(p),
    decreases paths.len(),
{
    if paths.len() > 0 {
        let step = move_result(fs, paths[0]);
        lemma_absent_stays_absent(step.0, paths.drop_first(), p);
    }
}

/// What one run does: every candidate is attempted exactly once; the
/// destination only gains files and the source only loses them; a moved or
/// skipped candidate's file is afterwards present at the destination; a
/// failed candidate's file is untouched — absent on both sides before and
/// after; a moved candidate's source is gone only because its copy
/// completed. The destination gains no file that no candidate names.
pub proof fn lemma_run_effects(fs: PoolView, paths: Seq<Seq<char>>)
    ensures
        run_result(fs, paths).1.len() == paths.len(),
        fs.dest.subset_of(run_result(fs, paths).0.dest),
        run_result(fs, paths).0.source.subset_of(fs.source),
        forall|i: int|
            0 <= i < paths.len() ==> {
                let o = #[trigger] run_result(fs, paths).1[i];
                &&& (o == MoveOutcome::Moved || o == MoveOutcome::Skipped) ==> run_result(
                    fs,
                    paths,
                ).0.dest.contains(paths[i])
                &&& o == MoveOutcome::Failed ==> !run_result(fs, paths).0.dest.contains(paths[i])
                    && !run_result(fs, paths).0.source.contains(paths[i])
                &&& o == MoveOutcome::Moved ==> !run_result(fs, paths).0.source.contains(paths[i])
            },
        forall|p: Seq<char>|
            #[trigger] run_result(fs, paths).0.dest.contains(p) ==> fs.dest.contains(p)
                || paths.contains(p),
        forall|p: Seq<char>|
            fs.source.contains(p) && !(#[trigger] run_result(fs, paths).0.source.contains(p))
                ==> paths.contains(p),
    decreases paths.len(),
{
    if paths.len() > 0 {
        let p0 = paths[0];
        let step = move_result(fs, p0);
        let rest = paths.drop_first();
        lemma_run_effects(step.0, rest);
        let fin = run_result(fs, paths).0;
        let os = run_result(fs, paths).1;
        assert(os == seq![step.1] + run_result(step.0, rest).1);
        if step.1 == MoveOutcome::Failed {
            lemma_absent_stays_absent(step.0, rest, p0);
        }
        assert forall|i: int| 0 <= i < paths.len() implies {
            let o = #[trigger] os[i];
            &&& (o == MoveOutcome::Moved || o == MoveOutcome::Skipped) ==> fin.dest.contains(
                paths[i],
            )
            &&& o == MoveOutcome::Failed ==> !fin.dest.contains(paths[i]) && !fin.source.contains(
                paths[i],
            )
            &&& o == MoveOutcome::Moved ==> !fin.source.contains(paths[i])
        } by {
            if i == 0 {
                assert(os[0] == step.1);
                if step.1 == MoveOutcome::Moved || step.1 == MoveOutcome::Skipped {
                    assert(step.0.dest.contains(p0));
                }
                if step.1 == MoveOutcome::Moved {
                    assert(!step.0.source.contains(p0));
                }
            } else {
                assert(os[i] == run_result(step.0, rest).1[i - 1]);
                assert(paths[i] == rest[i - 1]);
            }
        }
        assert forall|p: Seq<char>| #[trigger] fin.dest.contains(p) implies fs.dest.contains(p)
            || paths.contains(p) by {
            if !fs.dest.contains(p) {
                if step.0.dest.contains(p) {
                    assert(p == p0);
                    assert(paths[0] == p);
                } else {
                    assert(rest.contains(p));
                    let j = choose|j: int| 0 <= j < rest.len() && rest[j] == p;
                    assert(paths[j + 1] == p);
                }
            }
        }
        assert forall|p: Seq<char>|
            fs.source.contains(p) && !(#[trigger] fin.source.contains(p)) implies paths.contains(
            p,
        ) by {
            if step.0.source.contains(p) {
                assert(rest.contains(p));
                let j = choose|j: int| 0 <= j < rest.len() && rest[j] == p;
                assert(paths[j + 1] == p);
            } else {
                assert(p == p0);
                assert(paths[0] == p);
            }
        }
    }
}

proof fn lemma_settled_run_noop(fs: PoolView, paths: Seq<Seq<char>>)
    requires
        forall|i: int|
            0 <= i < paths.len() ==> fs.dest.contains(#[trigger] paths[i]) || !fs.source.contains(
                paths[i],
            ),
    ensures
        run_result(fs, paths).0 == fs,
        run_result(fs, paths).1.len() == paths.len(),
        forall|i: int|
            0 <= i < paths.len() ==> #[trigger] run_result(fs, paths).1[i] == (if fs.dest.contains(
                paths[i],
            ) {
                MoveOutcome::Skipped
            } else {
                MoveOutcome::Failed
            }),
    decreases paths.len(),
{
    if paths.len() > 0 {
        let p0 = paths[0];
        let step = move_result(fs, p0);
        assert(step.0 == fs);
        let rest = paths.drop_first();
        assert forall|i: int|
            0 <= i < rest.len() implies fs.dest.contains(#[trigger] rest[i]) || !fs.source.contains(
            rest[i],
        ) by {
            assert(rest[i] == paths[i + 1]);
        }
        lemma_settled_run_noop(fs, rest);
        assert(run_result(fs, paths).1 == seq![step.1] + run_result(fs, rest).1);
        assert forall|i: int|
            0 <= i < paths.len() implies #[trigger] run_result(fs, paths).1[i] == (
        if fs.dest.contains(paths[i]) {
            MoveOutcome::Skipped
        } else {
            MoveOutcome::Failed
        }) by {
            if i == 0 {
                assert(run_result(fs, paths).1[0] == step.1);
            } else {
                assert(run_result(fs, paths).1[i] == run_result(fs, rest).1[i - 1]);
                assert(paths[i] == rest[i - 1]);
            }
        }
    }
}

/// Idempotence of the archival pipeline: a second run over the same
/// candidates leaves the destination and source exactly as the first run
/// left them, and when the first run succeeded in full, the second run
/// skips every candidate and reports no failure.
pub proof fn lemma_run_idempotent(fs: PoolView, paths: Seq<Seq<char>>)
    ensures
        run_result(run_result(fs, paths).0, paths).0 == run_result(fs, paths).0,
        !any_failed(run_result(fs, paths).1) ==> forall|i: int|
            0 <= i < paths.len() ==> #[trigger] run_result(run_result(fs, paths).0, paths).1[i]
                == MoveOutcome::Skipped,
        !any_failed(run_result(fs, paths).1) ==> !any_failed(
            run_result(run_result(fs, paths).0, paths).1,
        ),
{
    lemma_run_effects(fs, paths);
    let fin = run_result(fs, paths).0;
    let os = run_result(fs, paths).1;
    assert forall|i: int|
        0 <= i < paths.len() implies fin.dest.contains(#[trigger] paths[i]) || !fin.source.contains(
        paths[i],
    ) by {
        assert(os[i] == MoveOutcome::Skipped || os[i] == MoveOutcome::Moved || os[i]
            == MoveOutcome::Failed);
    }
    lemma_settled_run_noop(fin, paths);
    if !any_failed(os) {
        assert forall|i: int|
            0 <= i < paths.len() implies #[trigger] run_result(fin, paths).1[i]
            == MoveOutcome::Skipped by {
            assert(os[i] != MoveOutcome::Failed);
            assert(os[i] == MoveOutcome::Skipped || os[i] == MoveOutcome::Moved);
            assert(fin.dest.contains(paths[i]));
        }
        if any_failed(run_result(fin, paths).1) {
            let i = choose|i: int|
                0 <= i < run_result(fin, paths).1.len() && run_result(fin, paths).1[i]
                    == MoveOutcome::Failed;
            lemma_run_effects(fin, paths);
        }
    }
}

/// Batch-sequential processing changes nothing: running the candidates
/// batch after batch gives the same final state and the same outcomes, in
/// order, as one pass over the whole sequence.
pub proof fn lemma_run_append(fs: PoolView, a: Seq<Seq<char>>, b: Seq<Seq<char>>)
    ensures
        run_result(fs, a + b).0 == run_result(run_result(fs, a).0, b).0,
        run_result(fs, a + b).1 == run_result(fs, a).1 + run_result(run_result(fs, a).0, b).1,
    decreases a.len(),
{
    if a.len() == 0 {
        assert(a + b =~= b);
        assert(run_result(fs, a).0 == fs);
        assert(run_result(fs, a).1 + run_result(run_result(fs, a).0, b).1 =~= run_result(fs, b).1);
    } else {
        let p0 = a[0];
        assert((a + b)[0] == p0);
        let step = move_result(fs, p0);
        assert((a + b).drop_first() =~= a.drop_first() + b);
        lemma_run_append(step.0, a.drop_first(), b);
        assert(seq![step.1] + (run_result(step.0, a.drop_first()).1 + run_result(
            run_result(step.0, a.drop_first()).0,
            b,
        ).1) =~= (seq![step.1] + run_result(step.0, a.drop_first()).1) + run_result(
            run_result(fs, a).0,
            b,
        ).1);
    }
}

proof fn lemma_any_failed_push(os: Seq<MoveOutcome>, o: MoveOutcome)
    ensures
        any_failed(os + seq![o]) == (any_failed(os) || o == MoveOutcome::Failed),
{
    let all = os + seq![o];
    if any_failed(os) {
        let i = choose|i: int| 0 <= i < os.len() && os[i] == MoveOutcome::Failed;
        assert(all[i] == MoveOutcome::Failed);
    }
    if o == MoveOutcome::Failed {
        assert(all[os.len() as int] == MoveOutcome::Failed);
    }
    if any_failed(all) && !any_failed(os) {
        let i = choose|i: int| 0 <= i < all.len() && all[i] == MoveOutcome::Failed;
        if i < os.len() {
            assert(os[i] == MoveOutcome::Failed);
        } else {
            assert(all[i] == o);
        }
    }
}

/// The paths named by a sequence of strings, as a set.
spec fn names_set(ss: Seq<String>) -> Set<Seq<char>> {
    Set::new(|p: Seq<char>| exists|i: int| 0 <= i < ss.len() && (#[trigger] ss[i])@ == p)
}

/// No two strings name the same path.
spec fn distinct_names(ss: Seq<String>) -> bool {
    forall|i: int, j: int| #![trigger ss[i], ss[j]] 0 <= i < j < ss.len() ==> ss[i]@ != ss[j]@
}

/// An executable model of the filesystem a run touches, for exercising the
/// pipeline's semantics: the readable source files and the files present at
/// the destination, by pool-relative path.
pub struct PoolState {
    source: Vec<String>,
    dest: Vec<String>,
}

impl View for PoolState {
    type V = PoolView;

    closed spec fn view(&self) -> PoolView {
        PoolView { source: names_set(self.source@), dest: names_set(self.dest@) }
    }
}

fn find_name(ss: &Vec<String>, path: &str) -> (r: Option<usize>)
    ensures
        match r {
            Some(i) => i < ss@.len() && (ss@[i as int])@ == path@,
            None => !names_set(ss@).contains(path@),
        },
{
    let n = ss.len();
    let mut i: usize = 0;
    while i < n
        invariant
            n == ss@.len(),
            i <= n,
            forall|m: int| 0 <= m < i ==> (#[trigger] ss@[m])@ != path@,
        decreases n - i,
    {
        if str_eq(ss[i].as_str(), path) {
            return Some(i);
        }
        i = i + 1;
    }
    proof {
        assert(!names_set(ss@).contains(path@)) by {
            if names_set(ss@).contains(path@) {
                let m = choose|m: int| 0 <= m < ss@.len() && (#[trigger] ss@[m])@ == path@;
            }
        }
    }
    None
}

fn vec_contains_name(ss: &Vec<String>, path: &str) -> (r: bool)
    ensures
        r == names_set(ss@).contains(path@),
{
    let n = ss.len();
    let mut i: usize = 0;
    while i < n
        invariant
            n == ss@.len(),
            i <= n,
            forall|m: int| 0 <= m < i ==> (#[trigger] ss@[m])@ != path@,
        decreases n - i,
    {
        if str_eq(ss[i].as_str(), path) {
            assert(names_set(ss@).contains(path@)) by {
                assert((ss@[i as int])@ == path@);
            }
            return true;
        }
        i = i + 1;
    }
    assert(!names_set(ss@).contains(path@)) by {
        if names_set(ss@).contains(path@) {
            let m = choose|m: int| 0 <= m < ss@.len() && (#[trigger] ss@[m])@ == path@;
        }
    }
    false
}

proof fn lemma_push_name(ss: Seq<String>, s: String)
    requires
        distinct_names(ss),
        !names_set(ss).contains(s@),
    ensures
        names_set(ss.push(s)) == names_set(ss).insert(s@),
        distinct_names(ss.push(s)),
{
    let after = ss.push(s);
    assert forall|p: Seq<char>| #![auto] names_set(after).contains(p) == names_set(ss).insert(
        s@,
    ).contains(p) by {
        if names_set(after).contains(p) {
            let i = choose|i: int| 0 <= i < after.len() && (#[trigger] after[i])@ == p;
            if i < ss.len() {
                assert((ss[i])@ == p);
            } else {
                assert(p == s@);
            }
        }
        if names_set(ss).insert(s@).contains(p) {
            if p == s@ {
                assert((after[ss.len() as int])@ == p);
            } else {
                let i = choose|i: int| 0 <= i < ss.len() && (#[trigger] ss[i])@ == p;
                assert((after[i])@ == p);
            }
        }
    }
    assert(names_set(after) =~= names_set(ss).insert(s@));
    assert forall|i: int, j: int|
        #![trigger after[i], after[j]]
        0 <= i < j < after.len() implies after[i]@ != after[j]@ by {
        if j < ss.len() {
            assert(after[i] == ss[i] && after[j] == ss[j]);
        } else {
            assert(after[j] == s);
            assert(after[i] == ss[i]);
            if after[i]@ == s@ {
                assert(names_set(ss).contains(s@)) by {
                    assert((ss[i])@ == s@);
                }
            }
        }
    }
}

proof fn lemma_remove_name(ss: Seq<String>, i: int)
    requires
        distinct_names(ss),
        0 <= i < ss.len(),
    ensures
        names_set(ss.remove(i)) == names_set(ss).remove(ss[i]@),
        distinct_names(ss.remove(i)),
{
    let after = ss.remove(i);
    assert forall|p: Seq<char>| #![auto] names_set(after).contains(p) == names_set(ss).remove(
        ss[i]@,
    ).contains(p) by {
        if names_set(after).contains(p) {
            let m = choose|m: int| 0 <= m < after.len() && (#[trigger] after[m])@ == p;
            if m < i {
                assert(after[m] == ss[m]);
                assert(p != ss[i]@);
            } else {
                assert(after[m] == ss[m + 1]);
                assert(p != ss[i]@);
            }
        }
        if names_set(ss).remove(ss[i]@).contains(p) {
            let m = choose|m: int| 0 <= m < ss.len() && (#[trigger] ss[m])@ == p;
            assert(m != i);
            if m < i {
                assert(after[m] == ss[m]);
            } else {
                assert(after[m - 1] == ss[m]);
            }
        }
    }
    assert(names_set(after) =~= names_set(ss).remove(ss[i]@));
    assert forall|a: int, b: int|
        #![trigger after[a], after[b]]
        0 <= a < b < after.len() implies after[a]@ != after[b]@ by {
        let a0 = if a < i {
            a
        } else {
            a + 1
        };
        let b0 = if b < i {
            b
        } else {
            b + 1
        };
        assert(after[a] == ss[a0]);
        assert(after[b] == ss[b0]);
    }
}

impl PoolState {
    /// The model's invariant: each side lists a path at most once.
    pub closed spec fn wf(&self) -> bool {
        distinct_names(self.source@) && distinct_names(self.dest@)
    }

    /// An empty filesystem.
    pub fn new() -> (s: PoolState)
        ensures
            s.wf(),
            s@.source == Set::<Seq<char>>::empty(),
            s@.dest == Set::<Seq<char>>::empty(),
    {
        let s = PoolState { source: Vec::new(), dest: Vec::new() };
        proof {
            assert(s@.source =~= Set::<Seq<char>>::empty());
            assert(s@.dest =~= Set::<Seq<char>>::empty());
        }
        s
    }

    /// Makes a path readable under the source root.
    pub fn add_source_file(&mut self, path: String)
        requires
            old(self).wf(),
        ensures
            final(self).wf(),
            final(self)@.source == old(self)@.source.insert(path@),
            final(self)@.dest == old(self)@.dest,
    {
        if !vec_contains_name(&self.source, path.as_str()) {
            let ghost before = self.source@;
            proof {
                lemma_push_name(before, path);
            }
            self.source.push(path);
        } else {
            proof {
                assert(old(self)@.source.insert(path@) =~= old(self)@.source);
            }
        }
    }

    /// Makes a path present under the destination root.
    pub fn add_dest_file(&mut self, path: String)
        requires
            old(self).wf(),
        ensures
            final(self).wf(),
            final(self)@.dest == old(self)@.dest.insert(path@),
            final(self)@.source == old(self)@.source,
    {
        if !vec_contains_name(&self.dest, path.as_str()) {
            let ghost before = self.dest@;
            proof {
                lemma_push_name(before, path);
            }
            self.dest.push(path);
        } else {
            proof {
                assert(old(self)@.dest.insert(path@) =~= old(self)@.dest);
            }
        }
    }

    /// Whether the source holds a readable file at the path.
    pub fn source_contains(&self, path: &str) -> (r: bool)
        ensures
            r == self@.source.contains(path@),
    {
        vec_contains_name(&self.source, path)
    }

    /// Whether the destination already holds a file at the path.
    pub fn dest_contains(&self, path: &str) -> (r: bool)
        ensures
            r == self@.dest.contains(path@),
    {
        vec_contains_name(&self.dest, path)
    }

    /// One candidate's move against the model: skip when the destination
    /// already has the file, fail when the source cannot be read, otherwise
    /// copy to the destination and delete the source only afterwards.
    pub fn apply_move(&mut self, path: &str) -> (o: MoveOutcome)
        requires
            old(self).wf(),
        ensures
            final(self).wf(),
            (final(self)@, o) == move_result(old(self)@, path@),
    {
        if vec_contains_name(&self.dest, path) {
            return MoveOutcome::Skipped;
        }
        match find_name(&self.source, path) {
            Some(i) => {
                let ghost src_before = self.source@;
                let ghost dest_before = self.dest@;
                proof {
                    lemma_remove_name(src_before, i as int);
                    assert(names_set(src_before).contains(path@)) by {
                        assert((src_before[i as int])@ == path@);
                    }
                }
                let moved = self.source.remove(i);
                proof {
                    assert(moved@ == path@);
                    lemma_push_name(dest_before, moved);
                }
                self.dest.push(moved);
                MoveOutcome::Moved
            },
            None => MoveOutcome::Failed,
        }
    }

    /// Attempts every candidate once, in order, and reports whether any
    /// failed. Failures do not abort the remaining candidates; already
    /// archived files are skipped without error.
    pub fn archive_candidates(&mut self, candidates: &Vec<RetirementCandidate>) -> (failed: bool)
        requires
            old(self).wf(),
        ensures
            final(self).wf(),
            final(self)@ == run_result(old(self)@, candidate_paths(candidates@)).0,
            failed == any_failed(run_result(old(self)@, candidate_paths(candidates@)).1),
    {
        let ghost full = candidate_paths(candidates@);
        let n = candidates.len();
        let mut failed = false;
        let mut k: usize = 0;
        proof {
            assert(full.take(0) =~= Seq::<Seq<char>>::empty());
        }
        while k < n
            invariant
                old(self).wf(),
                self.wf(),
                n == candidates@.len(),
                k <= n,
                full == candidate_paths(candidates@),
                self@ == run_result(old(self)@, full.take(k as int)).0,
                failed == any_failed(run_result(old(self)@, full.take(k as int)).1),
            decreases n - k,
        {
            let ghost pre = self@;
            let o = self.apply_move(candidates[k].meta.filename.as_str());
            if matches!(o, MoveOutcome::Failed) {
                failed = true;
            }
            proof {
                let taken = full.take(k as int);
                let stepped = full.take(k + 1);
                assert(stepped =~= taken + seq![full[k as int]]);
                lemma_run_append(old(self)@, taken, seq![full[k as int]]);
                assert(full[k as int] == candidates@[k as int].meta.filename@);
                let single = run_result(pre, seq![full[k as int]]);
                let mstep = move_result(pre, full[k as int]);
                assert(seq![full[k as int]].drop_first() =~= Seq::<Seq<char>>::empty());
                assert(seq![full[k as int]][0] == full[k as int]);
                assert(run_result(mstep.0, Seq::<Seq<char>>::empty()).0 == mstep.0);
                assert(run_result(mstep.0, Seq::<Seq<char>>::empty()).1 =~= Seq::<
                    MoveOutcome,
                >::empty());
                assert(single.0 == mstep.0);
                assert(single.1 =~= seq![mstep.1] + Seq::<MoveOutcome>::empty());
                assert(single.1 =~= seq![mstep.1]);
                assert(run_result(old(self)@, stepped).1 =~= run_result(old(self)@, taken).1
                    + seq![move_result(pre, full[k as int]).1]);
                lemma_any_failed_push(
                    run_result(old(self)@, taken).1,
                    move_result(pre, full[k as int]).1,
                );
            }
            k = k + 1;
        }
        proof {
            assert(full.take(n as int) =~= full);
        }
        failed
    }
}

/// The bound on how many candidates one batch holds — and so on how many
/// moves run concurrently at a time.
pub const RETIRE_BATCH_SIZE: usize = 40;

/// Partitions `n` candidates into consecutive batches of at most
/// `RETIRE_BATCH_SIZE`: each pair is the half-open index range of one
/// batch, they tile `0..n` in order, and every batch but possibly the last
/// is full. Batches bound peak concurrency; by `lemma_run_append`,
/// processing them in order equals one pass over the whole sequence.
pub fn batch_bounds(n: usize) -> (bs: Vec<(usize, usize)>)
    ensures
        n == 0 ==> bs@.len() == 0,
        n > 0 ==> bs@.len() > 0 && bs@[0].0 == 0 && bs@[bs@.len() - 1].1 == n,
        forall|k: int|
            0 <= k < bs@.len() ==> (#[trigger] bs@[k]).0 < bs@[k].1 && bs@[k].1 <= n && bs@[k].1
                - bs@[k].0 <= RETIRE_BATCH_SIZE,
        forall|k: int|
            0 <= k < bs@.len() - 1 ==> (#[trigger] bs@[k]).1 - bs@[k].0 == RETIRE_BATCH_SIZE,
        forall|k: int| 0 < k < bs@.len() ==> (#[trigger] bs@[k]).0 == bs@[k - 1].1,
{
    let mut bs: Vec<(usize, usize)> = Vec::new();
    let mut start: usize = 0;
    while start < n
        invariant
            start <= n,
            n == 0 ==> bs@.len() == 0,
            bs@.len() == 0 ==> start == 0,
            bs@.len() > 0 ==> bs@[0].0 == 0 && bs@[bs@.len() - 1].1 == start,
            forall|k: int|
                0 <= k < bs@.len() ==> (#[trigger] bs@[k]).0 < bs@[k].1 && bs@[k].1 <= n && bs@[k].1
                    - bs@[k].0 <= RETIRE_BATCH_SIZE,
            forall|k: int|
                0 <= k < bs@.len() && (#[trigger] bs@[k]).1 < n ==> bs@[k].1 - bs@[k].0
                    == RETIRE_BATCH_SIZE,
            forall|k: int| 0 < k < bs@.len() ==> (#[trigger] bs@[k]).0 == bs@[k - 1].1,
        decreases n - start,
    {
        let end = if n - start > RETIRE_BATCH_SIZE {
            start + RETIRE_BATCH_SIZE
        } else {
            n
        };
        bs.push((start, end));
        start = end;
    }
    proof {
        assert forall|k: int|
            0 <= k < bs@.len() - 1 implies (#[trigger] bs@[k]).1 - bs@[k].0
            == RETIRE_BATCH_SIZE by {
            assert(bs@[k + 1].0 == bs@[k].1);
            assert(bs@[k + 1].0 < bs@[k + 1].1);
        }
    }
    bs
}


/// Moves of two distinct paths commute: they read and write disjoint parts
/// of the filesystem, so within one batch — where every candidate works a
/// distinct pool path — the order in which concurrent moves complete
/// affects neither the final state nor any outcome.
pub proof fn lemma_moves_commute(fs: PoolView, p: Seq<char>, q: Seq<char>)
    requires
        p != q,
    ensures
        move_result(move_result(fs, p).0, q).0 == move_result(move_result(fs, q).0, p).0,
        move_result(move_result(fs, p).0, q).1 == move_result(fs, q).1,
        move_result(move_result(fs, q).0, p).1 == move_result(fs, p).1,
{
    let a = move_result(move_result(fs, p).0, q).0;
    let b = move_result(move_result(fs, q).0, p).0;
    assert(a.source =~= b.source);
    assert(a.dest =~= b.dest);
    assert(a =~= b);
}

} // verus!\n