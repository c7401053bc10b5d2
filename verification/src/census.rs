//! What a walk finds on a given disk.

use crate::aggregator::{Entry, SizeMode};
use crate::stat::{FileStat, InodeKey};
use crate::traversal::{FrameState, Question, Tree, WalkState};
use crate::walker::{Found, Verdict, WalkOptions};
use crate::{aggregator, path, traversal, walker};
use vstd::prelude::*;

verus! {

/// What the filesystem answers.
pub struct Disk {
    /// The entries of a directory, where it can be read.
    pub list: spec_fn(Seq<u8>) -> Option<Seq<Seq<u8>>>,
    /// What it says of an entry.
    pub stat: spec_fn(Seq<u8>) -> Option<FileStat>,
    /// What it says of the entry that a symbolic link leads to.
    pub target: spec_fn(Seq<u8>) -> Option<FileStat>,
}

/// What becomes of an entry on `disk`, and the inodes then met.
pub open spec fn verdict_on(
    disk: Disk,
    opts: WalkOptions,
    path: Seq<u8>,
    depth: nat,
    seen: Set<InodeKey>,
) -> (Verdict, Set<InodeKey>) {
    match (disk.stat)(path) {
        None => (Verdict::Skip, seen),
        Some(st) => walker::judged(path, st, (disk.target)(path), opts, depth, seen),
    }
}

/// What is counted in the directory `path`, which is `depth` levels below the
/// root, and the inodes then met. There is an answer where no more than `fuel`
/// levels of directories are entered.
pub open spec fn walk_dir(
    disk: Disk,
    opts: WalkOptions,
    path: Seq<u8>,
    depth: nat,
    seen: Set<InodeKey>,
    fuel: nat,
) -> Option<(Seq<Tree>, Set<InodeKey>)>
    decreases fuel, 0nat, 0nat,
{
    if fuel == 0 {
        None
    } else {
        match (disk.list)(path) {
            None => Some((seq![], seen)),
            Some(entries) => walk_entries(disk, opts, entries, depth, seen, (fuel - 1) as nat),
        }
    }
}

/// What is counted among `entries`, one after the other.
pub open spec fn walk_entries(
    disk: Disk,
    opts: WalkOptions,
    entries: Seq<Seq<u8>>,
    depth: nat,
    seen: Set<InodeKey>,
    fuel: nat,
) -> Option<(Seq<Tree>, Set<InodeKey>)>
    decreases fuel, 1nat, entries.len(),
{
    if entries.len() == 0 {
        Some((seq![], seen))
    } else {
        let path = entries[0];
        let (verdict, met) = verdict_on(disk, opts, path, depth, seen);
        let first: Option<(Seq<Tree>, Set<InodeKey>)> = match verdict {
            Verdict::Skip => Some((seq![], met)),
            Verdict::Count(size) => Some((seq![Tree::File((path, size))], met)),
            Verdict::Descend => match walk_dir(disk, opts, path, depth + 1, met, fuel) {
                Some((below, after)) => Some((seq![Tree::Dir(path, below)], after)),
                None => None,
            },
        };
        match first {
            None => None,
            Some((trees, after)) => match walk_entries(
                disk,
                opts,
                entries.drop_first(),
                depth,
                after,
                fuel,
            ) {
                None => None,
                Some((rest, end)) => Some((trees + rest, end)),
            },
        }
    }
}

/// Trouble does not stop a walk: a directory that cannot be read counts as
/// empty, and an entry of which the system says nothing is passed over.
pub proof fn law_trouble_does_not_stop_a_walk(
    disk: Disk,
    opts: WalkOptions,
    path: Seq<u8>,
    others: Seq<Seq<u8>>,
    depth: nat,
    seen: Set<InodeKey>,
    fuel: nat,
)
    ensures
        (disk.list)(path) is None && fuel > 0 ==> walk_dir(disk, opts, path, depth, seen, fuel)
            == Some((Seq::<Tree>::empty(), seen)),
        (disk.stat)(path) is None ==> walk_entries(
            disk,
            opts,
            seq![path] + others,
            depth,
            seen,
            fuel,
        ) == walk_entries(disk, opts, others, depth, seen, fuel),
{
    let entries = seq![path] + others;
    assert(entries.drop_first() =~= others);
    if let Some((trees, _)) = walk_entries(disk, opts, others, depth, seen, fuel) {
        assert(seq![] + trees =~= trees);
    }
}

pub proof fn lemma_dir_more_fuel(
    disk: Disk,
    opts: WalkOptions,
    path: Seq<u8>,
    depth: nat,
    seen: Set<InodeKey>,
    fuel: nat,
)
    ensures
        walk_dir(disk, opts, path, depth, seen, fuel) is Some ==> walk_dir(
            disk,
            opts,
            path,
            depth,
            seen,
            fuel + 1,
        ) == walk_dir(disk, opts, path, depth, seen, fuel),
    decreases fuel, 0nat, 0nat,
{
    if fuel > 0 {
        if let Some(entries) = (disk.list)(path) {
            lemma_entries_more_fuel(disk, opts, entries, depth, seen, (fuel - 1) as nat);
        }
    }
}

pub proof fn lemma_entries_more_fuel(
    disk: Disk,
    opts: WalkOptions,
    entries: Seq<Seq<u8>>,
    depth: nat,
    seen: Set<InodeKey>,
    fuel: nat,
)
    ensures
        walk_entries(disk, opts, entries, depth, seen, fuel) is Some ==> walk_entries(
            disk,
            opts,
            entries,
            depth,
            seen,
            fuel + 1,
        ) == walk_entries(disk, opts, entries, depth, seen, fuel),
    decreases fuel, 1nat, entries.len(),
{
    if entries.len() > 0 {
        let path = entries[0];
        let (verdict, met) = verdict_on(disk, opts, path, depth, seen);
        let rest = entries.drop_first();
        match verdict {
            Verdict::Descend => {
                lemma_dir_more_fuel(disk, opts, path, depth + 1, met, fuel);
                if let Some((_, after)) = walk_dir(disk, opts, path, depth + 1, met, fuel) {
                    lemma_entries_more_fuel(disk, opts, rest, depth, after, fuel);
                }
            },
            _ => {
                lemma_entries_more_fuel(disk, opts, rest, depth, met, fuel);
            },
        }
    }
}

/// The tree that comes out once the open directories have been gone through.
pub open spec fn unwound(
    disk: Disk,
    opts: WalkOptions,
    stack: Seq<FrameState>,
    seen: Set<InodeKey>,
    fuel: nat,
) -> Option<Tree>
    decreases stack.len(),
{
    if stack.len() == 0 {
        None
    } else {
        let last = stack.last();
        match walk_entries(disk, opts, last.todo, (stack.len() - 1) as nat, seen, fuel) {
            None => None,
            Some((trees, met)) => {
                let tree = Tree::Dir(last.path, last.done + trees);
                if stack.len() == 1 {
                    Some(tree)
                } else {
                    unwound(
                        disk,
                        opts,
                        traversal::with_done(stack.drop_last(), seq![tree]),
                        met,
                        fuel,
                    )
                }
            },
        }
    }
}

/// The tree that comes out of a walk in this state when `disk` answers.
pub open spec fn outcome(disk: Disk, s: WalkState, fuel: nat) -> Option<Tree> {
    match s.asked {
        Question::Done(tree) => Some(tree),
        Question::Overflow => None,
        Question::Stat(path) => unwound(
            disk,
            s.opts,
            traversal::with_todo(s.stack, seq![path] + s.stack.last().todo),
            s.seen,
            fuel,
        ),
        Question::Follow(path, _) => unwound(
            disk,
            s.opts,
            traversal::with_todo(s.stack, seq![path] + s.stack.last().todo),
            s.seen,
            fuel,
        ),
        Question::List(path) => match walk_dir(disk, s.opts, path, s.stack.len(), s.seen, fuel) {
            None => None,
            Some((below, met)) => {
                let tree = Tree::Dir(path, below);
                if s.stack.len() == 0 {
                    Some(tree)
                } else {
                    unwound(disk, s.opts, traversal::with_done(s.stack, seq![tree]), met, fuel)
                }
            },
        },
    }
}

/// The state after `disk` has answered what is asked.
pub open spec fn step(disk: Disk, s: WalkState) -> WalkState {
    match s.asked {
        Question::List(path) => traversal::after_list(s, path, (disk.list)(path)),
        Question::Stat(path) => traversal::after_stat(s, path, (disk.stat)(path)),
        Question::Follow(path, st) => traversal::after_follow(s, path, st, (disk.target)(path)),
        _ => s,
    }
}

/// The state after `n` answers.
pub open spec fn run(disk: Disk, s: WalkState, n: nat) -> WalkState
    decreases n,
{
    if n == 0 {
        s
    } else {
        step(disk, run(disk, s, (n - 1) as nat))
    }
}

/// The state is one that answers from `disk` lead to: where an entry is asked
/// after, a directory is open, and what is remembered of a symbolic link is
/// what `disk` said of it.
pub open spec fn on_course(disk: Disk, s: WalkState) -> bool {
    match s.asked {
        Question::Stat(_) => s.stack.len() > 0,
        Question::Follow(path, st) => s.stack.len() > 0 && (disk.stat)(path) == Some(st)
            && st.is_symlink && s.opts.follow_symlinks,
        _ => true,
    }
}

proof fn lemma_settled(disk: Disk, s: WalkState, fuel: nat)
    requires
        s.stack.len() > 0,
    ensures
        outcome(disk, traversal::moved_on(s), fuel) == unwound(disk, s.opts, s.stack, s.seen, fuel),
        on_course(disk, traversal::moved_on(s)),
    decreases s.stack.len(),
{
    let last = s.stack.last();
    let next = traversal::moved_on(s);
    if last.todo.len() > 0 {
        let path = last.todo[0];
        assert(seq![path] + last.todo.drop_first() =~= last.todo);
        assert(traversal::with_todo(next.stack, seq![path] + next.stack.last().todo) =~= s.stack);
    } else {
        assert(last.done + seq![] =~= last.done);
        if s.stack.len() > 1 {
            let tree = Tree::Dir(last.path, last.done);
            let above = traversal::with_done(s.stack.drop_last(), seq![tree]);
            lemma_settled(disk, WalkState { stack: above, ..s }, fuel);
        }
    }
}

/// An answer from `disk` does not change the tree that comes out, unless the
/// sizes overflow.
pub proof fn law_answers_keep_the_outcome(disk: Disk, s: WalkState, fuel: nat)
    requires
        on_course(disk, s),
        outcome(disk, s, fuel) is Some,
        step(disk, s).asked !is Overflow,
    ensures
        on_course(disk, step(disk, s)),
        outcome(disk, step(disk, s), fuel) == outcome(disk, s, fuel),
{
    match s.asked {
        Question::List(path) => {
            lemma_after_list(disk, s, path, fuel);
        },
        Question::Stat(path) => {
            match (disk.stat)(path) {
                None => {
                    lemma_after_verdict(disk, s, path, Verdict::Skip, s.seen, fuel);
                },
                Some(st) => {
                    if !(st.is_symlink && s.opts.follow_symlinks) {
                        let (verdict, seen) = walker::judged(
                            path,
                            st,
                            None,
                            s.opts,
                            traversal::depth_of(s),
                            s.seen,
                        );
                        lemma_after_verdict(disk, s, path, verdict, seen, fuel);
                    }
                },
            }
        },
        Question::Follow(path, st) => {
            let (verdict, seen) = walker::judged(
                path,
                st,
                (disk.target)(path),
                s.opts,
                traversal::depth_of(s),
                s.seen,
            );
            lemma_after_verdict(disk, s, path, verdict, seen, fuel);
        },
        _ => {},
    }
}

proof fn lemma_after_list(disk: Disk, s: WalkState, path: Seq<u8>, fuel: nat)
    requires
        s.asked == Question::List(path),
        outcome(disk, s, fuel) is Some,
    ensures
        on_course(disk, step(disk, s)),
        outcome(disk, step(disk, s), fuel) == outcome(disk, s, fuel),
{
    let todo = match (disk.list)(path) {
        Some(todo) => todo,
        None => seq![],
    };
    let frame = FrameState { path, done: seq![], todo };
    let opened = WalkState { stack: s.stack.push(frame), ..s };
    lemma_settled(disk, opened, fuel);
    lemma_entries_more_fuel(disk, s.opts, todo, s.stack.len(), s.seen, (fuel - 1) as nat);
    assert(opened.stack.drop_last() =~= s.stack);
    let (below, met) = walk_dir(disk, s.opts, path, s.stack.len(), s.seen, fuel)->0;
    assert(walk_entries(disk, s.opts, todo, s.stack.len(), s.seen, fuel) == Some((below, met)));
    assert(frame.done + below =~= below);
}

proof fn lemma_after_verdict(
    disk: Disk,
    s: WalkState,
    path: Seq<u8>,
    verdict: Verdict,
    seen: Set<InodeKey>,
    fuel: nat,
)
    requires
        s.stack.len() > 0,
        unwound(
            disk,
            s.opts,
            traversal::with_todo(s.stack, seq![path] + s.stack.last().todo),
            s.seen,
            fuel,
        ) is Some,
        verdict_on(disk, s.opts, path, traversal::depth_of(s), s.seen) == (verdict, seen),
        traversal::after_verdict(WalkState { seen, ..s }, path, verdict).asked !is Overflow,
    ensures
        ({
            let next = traversal::after_verdict(WalkState { seen, ..s }, path, verdict);
            &&& on_course(disk, next)
            &&& outcome(disk, next, fuel) == unwound(
                disk,
                s.opts,
                traversal::with_todo(s.stack, seq![path] + s.stack.last().todo),
                s.seen,
                fuel,
            )
        }),
{
    let judged = WalkState { seen, ..s };
    let last = s.stack.last();
    let todo = seq![path] + last.todo;
    let asked = traversal::with_todo(s.stack, todo);
    let depth = traversal::depth_of(s);
    assert(todo.drop_first() =~= last.todo);
    assert(asked.drop_last() =~= s.stack.drop_last());
    let (trees, end) = walk_entries(disk, s.opts, todo, depth, s.seen, fuel)->0;
    match verdict {
        Verdict::Skip => {
            lemma_settled(disk, judged, fuel);
            let (rest, _) = walk_entries(disk, s.opts, last.todo, depth, seen, fuel)->0;
            assert(seq![] + rest =~= rest);
        },
        Verdict::Count(size) => {
            let file = Tree::File((path, size));
            let counted = WalkState {
                stack: traversal::with_done(s.stack, seq![file]),
                total: s.total + size as nat,
                count: s.count + 1,
                ..judged
            };
            lemma_settled(disk, counted, fuel);
            assert(counted.stack.drop_last() =~= s.stack.drop_last());
            let (rest, _) = walk_entries(disk, s.opts, last.todo, depth, seen, fuel)->0;
            assert(last.done + (seq![file] + rest) =~= (last.done + seq![file]) + rest);
        },
        Verdict::Descend => {
            let (below, after) = walk_dir(disk, s.opts, path, depth + 1, seen, fuel)->0;
            let dir = Tree::Dir(path, below);
            let closed = traversal::with_done(s.stack, seq![dir]);
            assert(closed.drop_last() =~= s.stack.drop_last());
            let (rest, _) = walk_entries(disk, s.opts, last.todo, depth, after, fuel)->0;
            assert(last.done + (seq![dir] + rest) =~= (last.done + seq![dir]) + rest);
        },
    }
}

proof fn lemma_run_keeps_outcome(disk: Disk, s: WalkState, fuel: nat, n: nat)
    requires
        on_course(disk, s),
        outcome(disk, s, fuel) is Some,
        run(disk, s, n).asked !is Overflow,
    ensures
        on_course(disk, run(disk, s, n)),
        outcome(disk, run(disk, s, n), fuel) == outcome(disk, s, fuel),
    decreases n,
{
    if n > 0 {
        lemma_run_keeps_outcome(disk, s, fuel, (n - 1) as nat);
        law_answers_keep_the_outcome(disk, run(disk, s, (n - 1) as nat), fuel);
    }
}

/// A walk that is answered from `disk` and finishes has counted exactly what is
/// there.
pub proof fn law_finished_walk_holds_what_is_there(
    disk: Disk,
    opts: WalkOptions,
    root: Seq<u8>,
    fuel: nat,
    n: nat,
)
    requires
        walk_dir(disk, opts, root, 0, Set::empty(), fuel) is Some,
        run(disk, traversal::started(root, opts), n).asked is Done,
    ensures
        run(disk, traversal::started(root, opts), n).asked == Question::Done(
            Tree::Dir(root, (walk_dir(disk, opts, root, 0, Set::empty(), fuel)->0).0),
        ),
{
    lemma_run_keeps_outcome(disk, traversal::started(root, opts), fuel, n);
}

/// How many questions are asked about the directory `path` and all below it.
pub open spec fn questions_in_dir(
    disk: Disk,
    opts: WalkOptions,
    path: Seq<u8>,
    depth: nat,
    seen: Set<InodeKey>,
    fuel: nat,
) -> nat
    decreases fuel, 0nat, 0nat,
{
    if fuel == 0 {
        1
    } else {
        match (disk.list)(path) {
            None => 1,
            Some(entries) => 1 + questions_in_entries(
                disk,
                opts,
                entries,
                depth,
                seen,
                (fuel - 1) as nat,
            ),
        }
    }
}

/// One question for an entry, and another for a symbolic link to be followed.
pub open spec fn questions_for(disk: Disk, opts: WalkOptions, path: Seq<u8>) -> nat {
    match (disk.stat)(path) {
        Some(st) => if st.is_symlink && opts.follow_symlinks {
            2
        } else {
            1
        },
        None => 1,
    }
}

pub open spec fn questions_in_entries(
    disk: Disk,
    opts: WalkOptions,
    entries: Seq<Seq<u8>>,
    depth: nat,
    seen: Set<InodeKey>,
    fuel: nat,
) -> nat
    decreases fuel, 1nat, entries.len(),
{
    if entries.len() == 0 {
        0
    } else {
        let path = entries[0];
        let (verdict, met) = verdict_on(disk, opts, path, depth, seen);
        let rest = entries.drop_first();
        questions_for(disk, opts, path) + match verdict {
            Verdict::Descend => questions_in_dir(disk, opts, path, depth + 1, met, fuel)
                + match walk_dir(disk, opts, path, depth + 1, met, fuel) {
                Some((_, after)) => questions_in_entries(disk, opts, rest, depth, after, fuel),
                None => 0,
            },
            _ => questions_in_entries(disk, opts, rest, depth, met, fuel),
        }
    }
}

proof fn lemma_questions_in_dir_more_fuel(
    disk: Disk,
    opts: WalkOptions,
    path: Seq<u8>,
    depth: nat,
    seen: Set<InodeKey>,
    fuel: nat,
)
    requires
        walk_dir(disk, opts, path, depth, seen, fuel) is Some,
    ensures
        questions_in_dir(disk, opts, path, depth, seen, fuel + 1) == questions_in_dir(
            disk,
            opts,
            path,
            depth,
            seen,
            fuel,
        ),
    decreases fuel, 0nat, 0nat,
{
    if let Some(entries) = (disk.list)(path) {
        lemma_questions_in_entries_more_fuel(disk, opts, entries, depth, seen, (fuel - 1) as nat);
    }
}

pub proof fn lemma_questions_in_entries_more_fuel(
    disk: Disk,
    opts: WalkOptions,
    entries: Seq<Seq<u8>>,
    depth: nat,
    seen: Set<InodeKey>,
    fuel: nat,
)
    requires
        walk_entries(disk, opts, entries, depth, seen, fuel) is Some,
    ensures
        questions_in_entries(disk, opts, entries, depth, seen, fuel + 1) == questions_in_entries(
            disk,
            opts,
            entries,
            depth,
            seen,
            fuel,
        ),
    decreases fuel, 1nat, entries.len(),
{
    if entries.len() > 0 {
        let path = entries[0];
        let (verdict, met) = verdict_on(disk, opts, path, depth, seen);
        let rest = entries.drop_first();
        match verdict {
            Verdict::Descend => {
                lemma_dir_more_fuel(disk, opts, path, depth + 1, met, fuel);
                lemma_questions_in_dir_more_fuel(disk, opts, path, depth + 1, met, fuel);
                let (_, after) = walk_dir(disk, opts, path, depth + 1, met, fuel)->0;
                lemma_questions_in_entries_more_fuel(disk, opts, rest, depth, after, fuel);
            },
            _ => {
                lemma_questions_in_entries_more_fuel(disk, opts, rest, depth, met, fuel);
            },
        }
    }
}

/// How many questions are asked until the open directories have been gone through.
pub open spec fn questions_unwinding(
    disk: Disk,
    opts: WalkOptions,
    stack: Seq<FrameState>,
    seen: Set<InodeKey>,
    fuel: nat,
) -> nat
    decreases stack.len(),
{
    if stack.len() == 0 {
        0
    } else {
        let last = stack.last();
        let depth = (stack.len() - 1) as nat;
        questions_in_entries(disk, opts, last.todo, depth, seen, fuel) + match walk_entries(
            disk,
            opts,
            last.todo,
            depth,
            seen,
            fuel,
        ) {
            Some((trees, met)) if stack.len() > 1 => questions_unwinding(
                disk,
                opts,
                traversal::with_done(
                    stack.drop_last(),
                    seq![Tree::Dir(last.path, last.done + trees)],
                ),
                met,
                fuel,
            ),
            _ => 0,
        }
    }
}

/// How many questions a walk in this state still asks.
pub open spec fn questions_left(disk: Disk, s: WalkState, fuel: nat) -> nat {
    match s.asked {
        Question::Done(_) => 0,
        Question::Overflow => 0,
        Question::Stat(path) => questions_unwinding(
            disk,
            s.opts,
            traversal::with_todo(s.stack, seq![path] + s.stack.last().todo),
            s.seen,
            fuel,
        ),
        Question::Follow(path, _) => (questions_unwinding(
            disk,
            s.opts,
            traversal::with_todo(s.stack, seq![path] + s.stack.last().todo),
            s.seen,
            fuel,
        ) - 1) as nat,
        Question::List(path) => questions_in_dir(disk, s.opts, path, s.stack.len(), s.seen, fuel)
            + match walk_dir(disk, s.opts, path, s.stack.len(), s.seen, fuel) {
            None => 0,
            Some((below, met)) => if s.stack.len() == 0 {
                0
            } else {
                questions_unwinding(
                    disk,
                    s.opts,
                    traversal::with_done(s.stack, seq![Tree::Dir(path, below)]),
                    met,
                    fuel,
                )
            },
        },
    }
}

proof fn lemma_settled_questions(disk: Disk, s: WalkState, fuel: nat)
    requires
        s.stack.len() > 0,
    ensures
        questions_left(disk, traversal::moved_on(s), fuel) == questions_unwinding(
            disk,
            s.opts,
            s.stack,
            s.seen,
            fuel,
        ),
    decreases s.stack.len(),
{
    let last = s.stack.last();
    let next = traversal::moved_on(s);
    if last.todo.len() > 0 {
        let path = last.todo[0];
        assert(seq![path] + last.todo.drop_first() =~= last.todo);
        assert(traversal::with_todo(next.stack, seq![path] + next.stack.last().todo) =~= s.stack);
    } else {
        assert(last.done + seq![] =~= last.done);
        if s.stack.len() > 1 {
            let tree = Tree::Dir(last.path, last.done);
            let above = traversal::with_done(s.stack.drop_last(), seq![tree]);
            lemma_settled_questions(disk, WalkState { stack: above, ..s }, fuel);
        }
    }
}

/// Every answer from `disk` leaves one question less, unless the sizes overflow.
pub proof fn law_answers_use_up_questions(disk: Disk, s: WalkState, fuel: nat)
    requires
        on_course(disk, s),
        outcome(disk, s, fuel) is Some,
        s.asked !is Done,
        step(disk, s).asked !is Overflow,
    ensures
        questions_left(disk, s, fuel) > 0,
        questions_left(disk, step(disk, s), fuel) == questions_left(disk, s, fuel) - 1,
{
    match s.asked {
        Question::List(path) => {
            let todo = match (disk.list)(path) {
                Some(todo) => todo,
                None => seq![],
            };
            let frame = FrameState { path, done: seq![], todo };
            let opened = WalkState { stack: s.stack.push(frame), ..s };
            lemma_settled_questions(disk, opened, fuel);
            lemma_entries_more_fuel(disk, s.opts, todo, s.stack.len(), s.seen, (fuel - 1) as nat);
            assert(opened.stack.drop_last() =~= s.stack);
            let (below, met) = walk_dir(disk, s.opts, path, s.stack.len(), s.seen, fuel)->0;
            assert(walk_entries(disk, s.opts, todo, s.stack.len(), s.seen, fuel) == Some(
                (below, met),
            ));
            assert(frame.done + below =~= below);
            if (disk.list)(path) is Some {
                lemma_questions_in_entries_more_fuel(
                    disk,
                    s.opts,
                    todo,
                    s.stack.len(),
                    s.seen,
                    (fuel - 1) as nat,
                );
            }
        },
        Question::Stat(path) => {
            lemma_entry_has_questions(disk, s, path, fuel);
            match (disk.stat)(path) {
                None => {
                    lemma_verdict_uses_up_questions(disk, s, path, Verdict::Skip, s.seen, fuel);
                },
                Some(st) => {
                    if !(st.is_symlink && s.opts.follow_symlinks) {
                        let (verdict, seen) = walker::judged(
                            path,
                            st,
                            None,
                            s.opts,
                            traversal::depth_of(s),
                            s.seen,
                        );
                        lemma_verdict_uses_up_questions(disk, s, path, verdict, seen, fuel);
                    }
                },
            }
        },
        Question::Follow(path, st) => {
            let (verdict, seen) = walker::judged(
                path,
                st,
                (disk.target)(path),
                s.opts,
                traversal::depth_of(s),
                s.seen,
            );
            lemma_verdict_uses_up_questions(disk, s, path, verdict, seen, fuel);
        },
        _ => {},
    }
}

proof fn lemma_entry_has_questions(disk: Disk, s: WalkState, path: Seq<u8>, fuel: nat)
    requires
        s.stack.len() > 0,
    ensures
        questions_unwinding(
            disk,
            s.opts,
            traversal::with_todo(s.stack, seq![path] + s.stack.last().todo),
            s.seen,
            fuel,
        ) >= questions_for(disk, s.opts, path),
{
    let todo = seq![path] + s.stack.last().todo;
    assert(todo[0] == path);
}

proof fn lemma_verdict_uses_up_questions(
    disk: Disk,
    s: WalkState,
    path: Seq<u8>,
    verdict: Verdict,
    seen: Set<InodeKey>,
    fuel: nat,
)
    requires
        s.stack.len() > 0,
        unwound(
            disk,
            s.opts,
            traversal::with_todo(s.stack, seq![path] + s.stack.last().todo),
            s.seen,
            fuel,
        ) is Some,
        verdict_on(disk, s.opts, path, traversal::depth_of(s), s.seen) == (verdict, seen),
        traversal::after_verdict(WalkState { seen, ..s }, path, verdict).asked !is Overflow,
    ensures
        questions_unwinding(
            disk,
            s.opts,
            traversal::with_todo(s.stack, seq![path] + s.stack.last().todo),
            s.seen,
            fuel,
        ) == questions_for(disk, s.opts, path) + questions_left(
            disk,
            traversal::after_verdict(WalkState { seen, ..s }, path, verdict),
            fuel,
        ),
{
    let judged = WalkState { seen, ..s };
    let last = s.stack.last();
    let todo = seq![path] + last.todo;
    let asked = traversal::with_todo(s.stack, todo);
    let depth = traversal::depth_of(s);
    assert(todo.drop_first() =~= last.todo);
    assert(asked.drop_last() =~= s.stack.drop_last());
    match verdict {
        Verdict::Skip => {
            lemma_settled_questions(disk, judged, fuel);
            let (rest, _) = walk_entries(disk, s.opts, last.todo, depth, seen, fuel)->0;
            assert(seq![] + rest =~= rest);
        },
        Verdict::Count(size) => {
            let file = Tree::File((path, size));
            let counted = WalkState {
                stack: traversal::with_done(s.stack, seq![file]),
                total: s.total + size as nat,
                count: s.count + 1,
                ..judged
            };
            lemma_settled_questions(disk, counted, fuel);
            assert(counted.stack.drop_last() =~= s.stack.drop_last());
            let (rest, _) = walk_entries(disk, s.opts, last.todo, depth, seen, fuel)->0;
            assert(last.done + (seq![file] + rest) =~= (last.done + seq![file]) + rest);
        },
        Verdict::Descend => {
            let (below, after) = walk_dir(disk, s.opts, path, depth + 1, seen, fuel)->0;
            let dir = Tree::Dir(path, below);
            let closed = traversal::with_done(s.stack, seq![dir]);
            assert(closed.drop_last() =~= s.stack.drop_last());
            let (rest, _) = walk_entries(disk, s.opts, last.todo, depth, after, fuel)->0;
            assert(last.done + (seq![dir] + rest) =~= (last.done + seq![dir]) + rest);
        },
    }
}

proof fn lemma_run_from_step(disk: Disk, s: WalkState, n: nat)
    ensures
        run(disk, step(disk, s), n) == run(disk, s, n + 1),
    decreases n,
{
    if n > 0 {
        lemma_run_from_step(disk, s, (n - 1) as nat);
    } else {
        assert(run(disk, s, 0) == s);
    }
}

proof fn lemma_finishes(disk: Disk, s: WalkState, fuel: nat) -> (n: nat)
    requires
        on_course(disk, s),
        outcome(disk, s, fuel) is Some,
    ensures
        run(disk, s, n).asked is Done || run(disk, s, n).asked is Overflow,
    decreases questions_left(disk, s, fuel),
{
    if s.asked is Done {
        0
    } else {
        let next = step(disk, s);
        lemma_run_from_step(disk, s, 0);
        if next.asked is Overflow {
            1
        } else {
            law_answers_keep_the_outcome(disk, s, fuel);
            law_answers_use_up_questions(disk, s, fuel);
            let n = lemma_finishes(disk, next, fuel);
            lemma_run_from_step(disk, s, n);
            n + 1
        }
    }
}

/// A walk that is answered from `disk` comes to an end: after so many answers
/// it has its tree, or the sizes have overflowed.
pub proof fn law_walk_comes_to_an_end(
    disk: Disk,
    opts: WalkOptions,
    root: Seq<u8>,
    fuel: nat,
) -> (n: nat)
    requires
        walk_dir(disk, opts, root, 0, Set::empty(), fuel) is Some,
    ensures
        ({
            let end = run(disk, traversal::started(root, opts), n);
            end.asked is Done || end.asked is Overflow
        }),
{
    lemma_finishes(disk, traversal::started(root, opts), fuel)
}

/// No real directory is below itself: every one that is listed in `path` ranks
/// below it, and no rank is above `top`.
pub open spec fn ranked(disk: Disk, rank: spec_fn(Seq<u8>) -> nat, top: nat) -> bool {
    &&& forall|path: Seq<u8>| #[trigger] rank(path) <= top
    &&& forall|path: Seq<u8>, i: int| #![trigger (disk.list)(path)->0[i]]
        (disk.list)(path) is Some && 0 <= i < (disk.list)(path)->0.len() ==> real_dir_ranks_below(
            disk,
            rank,
            (disk.list)(path)->0[i],
            path,
        )
}

pub open spec fn real_dir_ranks_below(
    disk: Disk,
    rank: spec_fn(Seq<u8>) -> nat,
    entry: Seq<u8>,
    path: Seq<u8>,
) -> bool {
    match (disk.stat)(entry) {
        Some(st) => st.is_dir && !st.is_symlink ==> rank(entry) < rank(path),
        None => true,
    }
}

/// All symbolic links lead to inodes in `inodes`.
pub open spec fn links_lead_into(disk: Disk, inodes: Set<InodeKey>) -> bool {
    forall|path: Seq<u8>|
        match #[trigger] (disk.target)(path) {
            Some(end) => inodes.contains(end.inode),
            None => true,
        }
}

/// How many levels of directories a walk can enter below `path`.
pub open spec fn levels_enough(
    rank: spec_fn(Seq<u8>) -> nat,
    top: nat,
    inodes: Set<InodeKey>,
    path: Seq<u8>,
    seen: Set<InodeKey>,
) -> nat {
    inodes.difference(seen).len() * (top + 1) + rank(path) + 1
}

proof fn lemma_fewer_unseen(
    inodes: Set<InodeKey>,
    seen: Set<InodeKey>,
    more: Set<InodeKey>,
    top: nat,
)
    requires
        inodes.finite(),
        seen.subset_of(more),
    ensures
        inodes.difference(more).len() <= inodes.difference(seen).len(),
        inodes.difference(more).len() * (top + 1) <= inodes.difference(seen).len() * (top + 1),
{
    let a = inodes.difference(more);
    let b = inodes.difference(seen);
    assert(a.subset_of(b));
    vstd::set_lib::lemma_len_subset(a, b);
    assert(a.len() * (top + 1) <= b.len() * (top + 1)) by (nonlinear_arith)
        requires
            a.len() <= b.len(),
    ;
}

proof fn lemma_one_less_unseen(inodes: Set<InodeKey>, seen: Set<InodeKey>, key: InodeKey, top: nat)
    requires
        inodes.finite(),
        inodes.contains(key),
        !seen.contains(key),
    ensures
        inodes.difference(seen.insert(key)).len() * (top + 1) + top + 1 <= inodes.difference(
            seen,
        ).len() * (top + 1),
{
    let a = inodes.difference(seen.insert(key));
    let b = inodes.difference(seen);
    assert(a =~= b.remove(key));
    assert(b.contains(key));
    assert(a.len() == b.len() - 1);
    assert(a.len() * (top + 1) + top + 1 <= b.len() * (top + 1)) by (nonlinear_arith)
        requires
            a.len() == b.len() - 1,
    ;
}

/// Symbolic links cannot trap a walk: where no real directory is below itself
/// and the links lead to finitely many inodes, the walk has an answer, links or
/// not, cycles or not.
pub proof fn law_links_cannot_trap_a_walk(
    disk: Disk,
    opts: WalkOptions,
    rank: spec_fn(Seq<u8>) -> nat,
    top: nat,
    inodes: Set<InodeKey>,
    path: Seq<u8>,
    depth: nat,
    seen: Set<InodeKey>,
    fuel: nat,
)
    requires
        ranked(disk, rank, top),
        links_lead_into(disk, inodes),
        inodes.finite(),
        fuel >= levels_enough(rank, top, inodes, path, seen),
    ensures
        walk_dir(disk, opts, path, depth, seen, fuel) matches Some((_, met)) && seen.subset_of(met),
    decreases fuel, 0nat, 0nat,
{
    if let Some(entries) = (disk.list)(path) {
        assert forall|i: int| 0 <= i < entries.len() implies #[trigger] real_dir_ranks_below(
            disk,
            rank,
            entries[i],
            path,
        ) by {
            assert((disk.list)(path)->0[i] == entries[i]);
        }
        lemma_entries_have_an_answer(
            disk,
            opts,
            rank,
            top,
            inodes,
            path,
            entries,
            depth,
            seen,
            (fuel - 1) as nat,
        );
    }
}

proof fn lemma_entries_have_an_answer(
    disk: Disk,
    opts: WalkOptions,
    rank: spec_fn(Seq<u8>) -> nat,
    top: nat,
    inodes: Set<InodeKey>,
    dir: Seq<u8>,
    entries: Seq<Seq<u8>>,
    depth: nat,
    seen: Set<InodeKey>,
    fuel: nat,
)
    requires
        ranked(disk, rank, top),
        links_lead_into(disk, inodes),
        inodes.finite(),
        fuel + 1 >= levels_enough(rank, top, inodes, dir, seen),
        forall|i: int|
            0 <= i < entries.len() ==> #[trigger] real_dir_ranks_below(disk, rank, entries[i], dir),
    ensures
        walk_entries(disk, opts, entries, depth, seen, fuel) matches Some((_, met))
            && seen.subset_of(met),
    decreases fuel, 1nat, entries.len(),
{
    if entries.len() > 0 {
        let path = entries[0];
        let (verdict, met) = verdict_on(disk, opts, path, depth, seen);
        let rest = entries.drop_first();
        assert(real_dir_ranks_below(disk, rank, entries[0], dir));
        assert forall|i: int| 0 <= i < rest.len() implies #[trigger] real_dir_ranks_below(
            disk,
            rank,
            rest[i],
            dir,
        ) by {
            assert(real_dir_ranks_below(disk, rank, entries[i + 1], dir));
        }
        assert(seen.subset_of(met));
        lemma_fewer_unseen(inodes, seen, met, top);
        match verdict {
            Verdict::Descend => {
                let st = (disk.stat)(path)->0;
                if st.is_symlink {
                    let key = ((disk.target)(path)->0).inode;
                    assert(inodes.contains(key));
                    lemma_one_less_unseen(inodes, seen, key, top);
                    assert(rank(path) <= top);
                } else {
                    assert(met == seen);
                }
                law_links_cannot_trap_a_walk(
                    disk,
                    opts,
                    rank,
                    top,
                    inodes,
                    path,
                    depth + 1,
                    met,
                    fuel,
                );
                let (_, after) = walk_dir(disk, opts, path, depth + 1, met, fuel)->0;
                lemma_fewer_unseen(inodes, met, after, top);
                lemma_entries_have_an_answer(
                    disk,
                    opts,
                    rank,
                    top,
                    inodes,
                    dir,
                    rest,
                    depth,
                    after,
                    fuel,
                );
            },
            _ => {
                lemma_entries_have_an_answer(
                    disk,
                    opts,
                    rank,
                    top,
                    inodes,
                    dir,
                    rest,
                    depth,
                    met,
                    fuel,
                );
            },
        }
    }
}

/// What `disk` shows of an entry to a walk.
pub open spec fn shown(disk: Disk, path: Seq<u8>, depth: nat) -> Seq<Found> {
    match (disk.stat)(path) {
        Some(st) => seq![Found { path, st, target: (disk.target)(path), depth }],
        None => seq![],
    }
}

/// The entries that a walk meets in the directory `path`, in the order in which
/// it meets them.
pub open spec fn met_in_dir(
    disk: Disk,
    opts: WalkOptions,
    path: Seq<u8>,
    depth: nat,
    seen: Set<InodeKey>,
    fuel: nat,
) -> Seq<Found>
    decreases fuel, 0nat, 0nat,
{
    if fuel == 0 {
        seq![]
    } else {
        match (disk.list)(path) {
            None => seq![],
            Some(entries) => met_in_entries(disk, opts, entries, depth, seen, (fuel - 1) as nat),
        }
    }
}

pub open spec fn met_in_entries(
    disk: Disk,
    opts: WalkOptions,
    entries: Seq<Seq<u8>>,
    depth: nat,
    seen: Set<InodeKey>,
    fuel: nat,
) -> Seq<Found>
    decreases fuel, 1nat, entries.len(),
{
    if entries.len() == 0 {
        seq![]
    } else {
        let path = entries[0];
        let (verdict, met) = verdict_on(disk, opts, path, depth, seen);
        let rest = entries.drop_first();
        shown(disk, path, depth) + match verdict {
            Verdict::Descend => met_in_dir(disk, opts, path, depth + 1, met, fuel)
                + match walk_dir(disk, opts, path, depth + 1, met, fuel) {
                Some((_, after)) => met_in_entries(disk, opts, rest, depth, after, fuel),
                None => seq![],
            },
            _ => met_in_entries(disk, opts, rest, depth, met, fuel),
        }
    }
}

proof fn lemma_judged_concat(a: Seq<Found>, b: Seq<Found>, opts: WalkOptions, seen: Set<InodeKey>)
    ensures
        ({
            let (first, met) = walker::judged_all(a, opts, seen);
            let (second, end) = walker::judged_all(b, opts, met);
            walker::judged_all(a + b, opts, seen) == (first + second, end)
        }),
    decreases b.len(),
{
    let (first, met) = walker::judged_all(a, opts, seen);
    let (second, end) = walker::judged_all(b, opts, met);
    if b.len() == 0 {
        assert(a + b =~= a);
        assert(first + second =~= first);
    } else {
        assert((a + b).drop_last() =~= a + b.drop_last());
        lemma_judged_concat(a, b.drop_last(), opts, seen);
        let (before, _) = walker::judged_all(b.drop_last(), opts, met);
        let f = b.last();
        assert((a + b).last() == f);
        assert forall|e: Entry| (first + before).push(e) =~= first + before.push(e) by {}
    }
}

proof fn lemma_one_judged(f: Found, opts: WalkOptions, seen: Set<InodeKey>)
    ensures
        ({
            let (verdict, met) = walker::judged(f.path, f.st, f.target, opts, f.depth, seen);
            walker::judged_all(seq![f], opts, seen) == (
                match verdict {
                    Verdict::Count(size) => seq![(f.path, size)],
                    _ => seq![],
                },
                met,
            )
        }),
{
    let one = seq![f];
    assert(one.drop_last() =~= seq![]);
    assert(walker::judged_all(one.drop_last(), opts, seen) == (Seq::<Entry>::empty(), seen));
    assert(one.last() == f);
    assert forall|e: Entry| Seq::<Entry>::empty().push(e) =~= seq![e] by {}
}

proof fn lemma_files_in_concat(a: Seq<Tree>, b: Seq<Tree>)
    ensures
        traversal::files_in(a + b) == traversal::files_in(a) + traversal::files_in(b),
    decreases b.len(),
{
    if b.len() == 0 {
        assert(a + b =~= a);
        assert(traversal::files_in(a) + traversal::files_in(b) =~= traversal::files_in(a));
    } else {
        assert((a + b).drop_last() =~= a + b.drop_last());
        lemma_files_in_concat(a, b.drop_last());
        assert((a + b).last() == b.last());
        assert(traversal::files_in(a + b) =~= traversal::files_in(a) + traversal::files_in(b));
    }
}

proof fn lemma_one_tree(t: Tree)
    ensures
        traversal::files_in(seq![t]) == traversal::files_in_tree(t),
{
    let one = seq![t];
    assert(one.drop_last() =~= seq![]);
    assert(traversal::files_in(one.drop_last()) =~= seq![]);
    assert(one.last() == t);
    assert(traversal::files_in(one) =~= traversal::files_in_tree(t));
}

/// The files that a walk counts are those that come of judging the entries it
/// meets one after the other; so what holds of judging entries in any order
/// holds of walks.
pub proof fn law_walk_judges_what_it_meets(
    disk: Disk,
    opts: WalkOptions,
    path: Seq<u8>,
    depth: nat,
    seen: Set<InodeKey>,
    fuel: nat,
)
    requires
        walk_dir(disk, opts, path, depth, seen, fuel) is Some,
    ensures
        ({
            let (trees, met) = walk_dir(disk, opts, path, depth, seen, fuel)->0;
            walker::judged_all(met_in_dir(disk, opts, path, depth, seen, fuel), opts, seen) == (
                traversal::files_in(trees),
                met,
            )
        }),
    decreases fuel, 0nat, 0nat,
{
    if let Some(entries) = (disk.list)(path) {
        lemma_entries_judged(disk, opts, entries, depth, seen, (fuel - 1) as nat);
    }
}

proof fn lemma_entries_judged(
    disk: Disk,
    opts: WalkOptions,
    entries: Seq<Seq<u8>>,
    depth: nat,
    seen: Set<InodeKey>,
    fuel: nat,
)
    requires
        walk_entries(disk, opts, entries, depth, seen, fuel) is Some,
    ensures
        ({
            let (trees, met) = walk_entries(disk, opts, entries, depth, seen, fuel)->0;
            walker::judged_all(
                met_in_entries(disk, opts, entries, depth, seen, fuel),
                opts,
                seen,
            ) == (traversal::files_in(trees), met)
        }),
    decreases fuel, 1nat, entries.len(),
{
    if entries.len() > 0 {
        let path = entries[0];
        let (verdict, met) = verdict_on(disk, opts, path, depth, seen);
        let rest = entries.drop_first();
        let first = shown(disk, path, depth);
        let counted: Seq<Entry> = match verdict {
            Verdict::Count(size) => seq![(path, size)],
            _ => seq![],
        };
        if let Some(st) = (disk.stat)(path) {
            lemma_one_judged(
                Found { path, st, target: (disk.target)(path), depth },
                opts,
                seen,
            );
        }
        assert(walker::judged_all(first, opts, seen) == (counted, met));
        match verdict {
            Verdict::Descend => {
                let below = met_in_dir(disk, opts, path, depth + 1, met, fuel);
                let (trees, after) = walk_dir(disk, opts, path, depth + 1, met, fuel)->0;
                let left = met_in_entries(disk, opts, rest, depth, after, fuel);
                let (others, _) = walk_entries(disk, opts, rest, depth, after, fuel)->0;
                law_walk_judges_what_it_meets(disk, opts, path, depth + 1, met, fuel);
                lemma_entries_judged(disk, opts, rest, depth, after, fuel);
                lemma_judged_concat(below, left, opts, met);
                lemma_judged_concat(first, below + left, opts, seen);
                lemma_one_tree(Tree::Dir(path, trees));
                lemma_files_in_concat(seq![Tree::Dir(path, trees)], others);
                assert(counted + (traversal::files_in(trees) + traversal::files_in(others))
                    =~= traversal::files_in(trees) + traversal::files_in(others));
            },
            Verdict::Count(size) => {
                let left = met_in_entries(disk, opts, rest, depth, met, fuel);
                let (others, _) = walk_entries(disk, opts, rest, depth, met, fuel)->0;
                lemma_entries_judged(disk, opts, rest, depth, met, fuel);
                lemma_judged_concat(first, left, opts, seen);
                lemma_one_tree(Tree::File((path, size)));
                lemma_files_in_concat(seq![Tree::File((path, size))], others);
            },
            Verdict::Skip => {
                let left = met_in_entries(disk, opts, rest, depth, met, fuel);
                let (others, _) = walk_entries(disk, opts, rest, depth, met, fuel)->0;
                lemma_entries_judged(disk, opts, rest, depth, met, fuel);
                lemma_judged_concat(first, left, opts, seen);
                assert(counted + traversal::files_in(others) =~= traversal::files_in(others));
                assert(seq![] + others =~= others);
            },
        }
    }
}

/// What `disk` shows of the entry is what is noted here of it.
pub open spec fn from_disk(disk: Disk, found: Seq<Found>) -> bool {
    forall|i: int|
        0 <= i < found.len() ==> (disk.stat)((#[trigger] found[i]).path) == Some(found[i].st)
            && (disk.target)(found[i].path) == found[i].target
}

pub proof fn lemma_met_in_dir_is_from_disk(
    disk: Disk,
    opts: WalkOptions,
    path: Seq<u8>,
    depth: nat,
    seen: Set<InodeKey>,
    fuel: nat,
)
    ensures
        from_disk(disk, met_in_dir(disk, opts, path, depth, seen, fuel)),
    decreases fuel, 0nat, 0nat,
{
    if fuel > 0 {
        if let Some(entries) = (disk.list)(path) {
            lemma_met_in_entries_is_from_disk(
                disk,
                opts,
                entries,
                depth,
                seen,
                (fuel - 1) as nat,
            );
        }
    }
}

proof fn lemma_met_in_entries_is_from_disk(
    disk: Disk,
    opts: WalkOptions,
    entries: Seq<Seq<u8>>,
    depth: nat,
    seen: Set<InodeKey>,
    fuel: nat,
)
    ensures
        from_disk(disk, met_in_entries(disk, opts, entries, depth, seen, fuel)),
    decreases fuel, 1nat, entries.len(),
{
    if entries.len() > 0 {
        let path = entries[0];
        let (verdict, met) = verdict_on(disk, opts, path, depth, seen);
        let rest = entries.drop_first();
        match verdict {
            Verdict::Descend => {
                lemma_met_in_dir_is_from_disk(disk, opts, path, depth + 1, met, fuel);
                if let Some((_, after)) = walk_dir(disk, opts, path, depth + 1, met, fuel) {
                    lemma_met_in_entries_is_from_disk(disk, opts, rest, depth, after, fuel);
                }
            },
            _ => {
                lemma_met_in_entries_is_from_disk(disk, opts, rest, depth, met, fuel);
            },
        }
    }
}

/// The inode `key` is said to be a directory.
pub open spec fn said_dir(st: Option<FileStat>, key: InodeKey) -> bool {
    st is Some && st->0.is_dir && st->0.inode == key
}

/// The inode `key` is said to be a regular file.
pub open spec fn said_file(st: Option<FileStat>, key: InodeKey) -> bool {
    st is Some && st->0.is_regular && !st->0.is_dir && st->0.inode == key
}

/// No inode is both a directory that a link leads to and a regular file.
pub open spec fn inodes_of_one_kind(disk: Disk) -> bool {
    &&& forall|p: Seq<u8>, q: Seq<u8>, key: InodeKey| #[trigger]
        said_dir((disk.target)(p), key) ==> !#[trigger] said_file((disk.stat)(q), key)
    &&& forall|p: Seq<u8>, q: Seq<u8>, key: InodeKey| #[trigger]
        said_dir((disk.target)(p), key) ==> !#[trigger] said_file((disk.target)(q), key)
}

/// The inode and size that the entry at `path` is to be counted with.
pub open spec fn claim_on(disk: Disk, opts: WalkOptions, path: Seq<u8>) -> Option<
    (InodeKey, u64),
> {
    match (disk.stat)(path) {
        Some(st) => walker::claim(
            Found { path, st, target: (disk.target)(path), depth: 0 },
            opts,
        ),
        None => None,
    }
}

/// An inode has the same size under all of its names.
pub open spec fn one_size_each(
    disk: Disk,
    opts: WalkOptions,
    sizes: spec_fn(InodeKey) -> u64,
) -> bool {
    forall|path: Seq<u8>|
        (#[trigger] claim_on(disk, opts, path)) matches Some((key, size)) ==> size == sizes(key)
}

/// What holds of the inodes of a disk holds of the entries that it shows.
pub proof fn lemma_entries_from_disk(disk: Disk, opts: WalkOptions, found: Seq<Found>)
    requires
        from_disk(disk, found),
    ensures
        !opts.follow_symlinks || inodes_of_one_kind(disk) ==> walker::of_one_kind(found, opts),
        forall|sizes: spec_fn(InodeKey) -> u64| #[trigger]
            one_size_each(disk, opts, sizes) ==> walker::agreed(found, opts, sizes),
{
    if !opts.follow_symlinks || inodes_of_one_kind(disk) {
        assert forall|i: int, j: int, key: InodeKey|
            0 <= i < found.len() && 0 <= j < found.len() && #[trigger] walker::claims(
                found[i],
                opts,
                key,
            ) implies #[trigger] walker::led_to(found[j], opts) != Some(key) by {
            let p = found[j].path;
            let q = found[i].path;
            assert((disk.target)(p) == found[j].target);
            assert((disk.stat)(q) == Some(found[i].st));
            if walker::led_to(found[j], opts) == Some(key) {
                assert(said_dir((disk.target)(p), key));
                assert(said_file((disk.stat)(q), key) || said_file((disk.target)(q), key));
            }
        }
    }
    assert forall|sizes: spec_fn(InodeKey) -> u64| #[trigger]
        one_size_each(disk, opts, sizes) implies walker::agreed(found, opts, sizes) by {
        assert forall|i: int| 0 <= i < found.len() implies ((#[trigger] walker::claim(
            found[i],
            opts,
        )) matches Some((key, size)) ==> size == sizes(key)) by {
            assert(claim_on(disk, opts, found[i].path) == walker::claim(found[i], opts));
        }
    }
}

/// A walk counts every inode that it meets as a file to be counted exactly once:
/// whatever the filter, whichever of its names comes first, and through links or
/// not. The inodes counted are those of `counted_keys`.
pub proof fn law_walk_counts_every_inode_once(
    disk: Disk,
    opts: WalkOptions,
    root: Seq<u8>,
    fuel: nat,
)
    requires
        walk_dir(disk, opts, root, 0, Set::empty(), fuel) is Some,
        opts.follow_symlinks ==> inodes_of_one_kind(disk),
    ensures
        ({
            let met = met_in_dir(disk, opts, root, 0, Set::empty(), fuel);
            let files = traversal::files_in(
                (walk_dir(disk, opts, root, 0, Set::empty(), fuel)->0).0,
            );
            let keys = walker::counted_keys(met, opts, Set::empty());
            &&& keys.no_duplicates()
            &&& keys.len() == files.len()
            &&& forall|key: InodeKey| #[trigger]
                keys.contains(key) <==> walker::claimed(met, opts, key)
        }),
{
    let met = met_in_dir(disk, opts, root, 0, Set::empty(), fuel);
    law_walk_judges_what_it_meets(disk, opts, root, 0, Set::empty(), fuel);
    lemma_met_in_dir_is_from_disk(disk, opts, root, 0, Set::empty(), fuel);
    lemma_entries_from_disk(disk, opts, met);
    walker::law_every_new_inode_is_counted_once(met, opts, Set::empty());
}

/// The bytes of a walk are the sizes of the inodes that it counts.
pub proof fn law_walk_adds_up_its_inodes(
    disk: Disk,
    opts: WalkOptions,
    root: Seq<u8>,
    fuel: nat,
    sizes: spec_fn(InodeKey) -> u64,
)
    requires
        walk_dir(disk, opts, root, 0, Set::empty(), fuel) is Some,
        one_size_each(disk, opts, sizes),
    ensures
        ({
            let met = met_in_dir(disk, opts, root, 0, Set::empty(), fuel);
            let files = traversal::files_in(
                (walk_dir(disk, opts, root, 0, Set::empty(), fuel)->0).0,
            );
            aggregator::total_bytes(files) == walker::sum_of(
                walker::counted_keys(met, opts, Set::empty()),
                sizes,
            )
        }),
{
    let met = met_in_dir(disk, opts, root, 0, Set::empty(), fuel);
    law_walk_judges_what_it_meets(disk, opts, root, 0, Set::empty(), fuel);
    lemma_met_in_dir_is_from_disk(disk, opts, root, 0, Set::empty(), fuel);
    lemma_entries_from_disk(disk, opts, met);
    walker::law_bytes_are_those_of_the_inodes(met, opts, Set::empty(), sizes);
}

/// With a filter, a walk counts only files that have the extension.
pub proof fn law_walk_counts_only_wanted_files(
    disk: Disk,
    opts: WalkOptions,
    root: Seq<u8>,
    fuel: nat,
)
    requires
        walk_dir(disk, opts, root, 0, Set::empty(), fuel) is Some,
    ensures
        ({
            let files = traversal::files_in(
                (walk_dir(disk, opts, root, 0, Set::empty(), fuel)->0).0,
            );
            forall|i: int|
                0 <= i < files.len() ==> walker::wanted_ext((#[trigger] files[i]).0, opts)
        }),
{
    law_walk_judges_what_it_meets(disk, opts, root, 0, Set::empty(), fuel);
    let met = met_in_dir(disk, opts, root, 0, Set::empty(), fuel);
    walker::law_only_wanted_files_are_counted(met, opts, Set::empty());
    let files = traversal::files_in((walk_dir(disk, opts, root, 0, Set::empty(), fuel)->0).0);
    assert forall|i: int| 0 <= i < files.len() implies walker::wanted_ext(
        (#[trigger] files[i]).0,
        opts,
    ) by {
        assert(walker::judged_all(met, opts, Set::empty()).0[i] == files[i]);
    }
}

/// How many levels of directories are in `trees`.
pub open spec fn levels(trees: Seq<Tree>) -> nat
    decreases trees,
{
    if trees.len() == 0 {
        0
    } else {
        let before = levels(trees.drop_last());
        let last = levels_of(trees.last());
        if before >= last {
            before
        } else {
            last
        }
    }
}

pub open spec fn levels_of(t: Tree) -> nat
    decreases t,
{
    match t {
        Tree::File(_) => 0,
        Tree::Dir(_, below) => 1 + levels(below),
    }
}

proof fn lemma_levels_concat(a: Seq<Tree>, b: Seq<Tree>, most: nat)
    requires
        levels(a) <= most,
        levels(b) <= most,
    ensures
        levels(a + b) <= most,
    decreases b.len(),
{
    if b.len() == 0 {
        assert(a + b =~= a);
    } else {
        assert((a + b).drop_last() =~= a + b.drop_last());
        assert((a + b).last() == b.last());
        lemma_levels_concat(a, b.drop_last(), most);
    }
}

proof fn lemma_levels_of_one(t: Tree)
    ensures
        levels(seq![t]) == levels_of(t),
{
    let one = seq![t];
    assert(one.drop_last() =~= seq![]);
    assert(levels(one.drop_last()) == 0);
    assert(one.last() == t);
}

/// With a depth limit, a walk enters no more than that many levels of directories.
pub proof fn law_depth_limit_holds(
    disk: Disk,
    opts: WalkOptions,
    path: Seq<u8>,
    depth: nat,
    seen: Set<InodeKey>,
    fuel: nat,
)
    requires
        opts.max_depth is Some,
        depth <= opts.max_depth->0,
        walk_dir(disk, opts, path, depth, seen, fuel) is Some,
    ensures
        depth + levels((walk_dir(disk, opts, path, depth, seen, fuel)->0).0) <= opts.max_depth->0,
    decreases fuel, 0nat, 0nat,
{
    if let Some(entries) = (disk.list)(path) {
        lemma_depth_limit_in_entries(disk, opts, entries, depth, seen, (fuel - 1) as nat);
    }
}

proof fn lemma_depth_limit_in_entries(
    disk: Disk,
    opts: WalkOptions,
    entries: Seq<Seq<u8>>,
    depth: nat,
    seen: Set<InodeKey>,
    fuel: nat,
)
    requires
        opts.max_depth is Some,
        depth <= opts.max_depth->0,
        walk_entries(disk, opts, entries, depth, seen, fuel) is Some,
    ensures
        depth + levels((walk_entries(disk, opts, entries, depth, seen, fuel)->0).0)
            <= opts.max_depth->0,
    decreases fuel, 1nat, entries.len(),
{
    if entries.len() > 0 {
        let path = entries[0];
        let (verdict, met) = verdict_on(disk, opts, path, depth, seen);
        let rest = entries.drop_first();
        let most = (opts.max_depth->0 - depth) as nat;
        match verdict {
            Verdict::Descend => {
                let (below, after) = walk_dir(disk, opts, path, depth + 1, met, fuel)->0;
                let (others, _) = walk_entries(disk, opts, rest, depth, after, fuel)->0;
                law_depth_limit_holds(disk, opts, path, depth + 1, met, fuel);
                lemma_depth_limit_in_entries(disk, opts, rest, depth, after, fuel);
                lemma_levels_of_one(Tree::Dir(path, below));
                lemma_levels_concat(seq![Tree::Dir(path, below)], others, most);
            },
            Verdict::Count(size) => {
                let (others, _) = walk_entries(disk, opts, rest, depth, met, fuel)->0;
                lemma_depth_limit_in_entries(disk, opts, rest, depth, met, fuel);
                lemma_levels_of_one(Tree::File((path, size)));
                lemma_levels_concat(seq![Tree::File((path, size))], others, most);
            },
            Verdict::Skip => {
                let (others, _) = walk_entries(disk, opts, rest, depth, met, fuel)->0;
                lemma_depth_limit_in_entries(disk, opts, rest, depth, met, fuel);
                assert(seq![] + others =~= others);
            },
        }
    }
}

/// The entry at `path` has been met in a directory at `depth`.
pub open spec fn met_at(found: Seq<Found>, path: Seq<u8>, depth: nat) -> bool {
    exists|k: int|
        0 <= k < found.len() && (#[trigger] found[k]).path == path && found[k].depth == depth
}

/// `disk` lists `entry` in the directory `path`.
pub open spec fn holds(disk: Disk, path: Seq<u8>, entry: Seq<u8>) -> bool {
    (disk.list)(path) is Some && (disk.list)(path)->0.contains(entry)
}

/// All that is in a real directory among `found`, as deep as the limit allows, is
/// among `found` too.
pub open spec fn goes_down(disk: Disk, opts: WalkOptions, found: Seq<Found>) -> bool {
    forall|k: int, entry: Seq<u8>|
        #![trigger found[k], holds(disk, found[k].path, entry)]
        {
            &&& 0 <= k < found.len()
            &&& found[k].st.is_dir && !found[k].st.is_symlink
            &&& opts.max_depth is None || found[k].depth < opts.max_depth->0
            &&& holds(disk, found[k].path, entry)
            &&& (disk.stat)(entry) is Some
        } ==> met_at(found, entry, found[k].depth + 1)
}

/// Whatever is among `found` is listed in `path`, at `depth`, or deeper in
/// something that is among `found`.
pub open spec fn comes_from_above(
    disk: Disk,
    found: Seq<Found>,
    entries: Seq<Seq<u8>>,
    depth: nat,
) -> bool {
    forall|k: int|
        0 <= k < found.len() ==> {
            ||| found[k].depth == depth && entries.contains(found[k].path)
            ||| listed_below(disk, found, #[trigger] found[k], depth)
        }
}

pub open spec fn listed_below(disk: Disk, found: Seq<Found>, f: Found, depth: nat) -> bool {
    exists|j: int|
        0 <= j < found.len() && depth <= (#[trigger] found[j]).depth && found[j].depth + 1
            == f.depth && holds(disk, found[j].path, f.path)
}

proof fn lemma_met_in_part(a: Seq<Found>, whole: Seq<Found>, from: int)
    requires
        0 <= from <= from + a.len() <= whole.len(),
        a == whole.subrange(from, from + a.len()),
    ensures
        forall|path: Seq<u8>, depth: nat| #[trigger]
            met_at(a, path, depth) ==> met_at(whole, path, depth),
        forall|disk: Disk, f: Found, depth: nat| #[trigger]
            listed_below(disk, a, f, depth) ==> listed_below(disk, whole, f, depth),
{
    assert forall|path: Seq<u8>, depth: nat| #[trigger] met_at(a, path, depth) implies met_at(
        whole,
        path,
        depth,
    ) by {
        let k = choose|k: int|
            0 <= k < a.len() && (#[trigger] a[k]).path == path && a[k].depth == depth;
        assert(whole[from + k] == a[k]);
    }
    assert forall|disk: Disk, f: Found, depth: nat| #[trigger]
        listed_below(disk, a, f, depth) implies listed_below(disk, whole, f, depth) by {
        let j = choose|j: int|
            0 <= j < a.len() && depth <= (#[trigger] a[j]).depth && a[j].depth + 1 == f.depth
                && holds(disk, a[j].path, f.path);
        assert(whole[from + j] == a[j]);
    }
}

/// A walk meets every entry of its directory, and all that is in the real
/// directories that it meets, as deep as the limit allows; and it meets nothing
/// else.
pub proof fn law_walk_meets_all_that_is_there(
    disk: Disk,
    opts: WalkOptions,
    path: Seq<u8>,
    depth: nat,
    seen: Set<InodeKey>,
    fuel: nat,
)
    requires
        walk_dir(disk, opts, path, depth, seen, fuel) is Some,
    ensures
        ({
            let met = met_in_dir(disk, opts, path, depth, seen, fuel);
            &&& forall|entry: Seq<u8>| #[trigger]
                holds(disk, path, entry) && (disk.stat)(entry) is Some ==> met_at(
                    met,
                    entry,
                    depth,
                )
            &&& goes_down(disk, opts, met)
            &&& (disk.list)(path) is None ==> met.len() == 0
            &&& (disk.list)(path) is Some ==> comes_from_above(
                disk,
                met,
                (disk.list)(path)->0,
                depth,
            )
        }),
    decreases fuel, 0nat, 0nat,
{
    if let Some(entries) = (disk.list)(path) {
        lemma_entries_meet_all(disk, opts, entries, depth, seen, (fuel - 1) as nat);
        let met = met_in_dir(disk, opts, path, depth, seen, fuel);
        assert forall|entry: Seq<u8>| #[trigger] holds(disk, path, entry) && (disk.stat)(
            entry,
        ) is Some implies met_at(met, entry, depth) by {
            let i = choose|i: int| 0 <= i < entries.len() && entries[i] == entry;
            assert(met_at(met, entries[i], depth));
        }
    }
}

proof fn lemma_entries_meet_all(
    disk: Disk,
    opts: WalkOptions,
    entries: Seq<Seq<u8>>,
    depth: nat,
    seen: Set<InodeKey>,
    fuel: nat,
)
    requires
        walk_entries(disk, opts, entries, depth, seen, fuel) is Some,
    ensures
        ({
            let met = met_in_entries(disk, opts, entries, depth, seen, fuel);
            &&& forall|i: int|
                0 <= i < entries.len() && (disk.stat)(#[trigger] entries[i]) is Some ==> met_at(
                    met,
                    entries[i],
                    depth,
                )
            &&& goes_down(disk, opts, met)
            &&& comes_from_above(disk, met, entries, depth)
        }),
    decreases fuel, 1nat, entries.len(),
{
    let met = met_in_entries(disk, opts, entries, depth, seen, fuel);
    if entries.len() > 0 {
        let path = entries[0];
        let rest = entries.drop_first();
        let (verdict, noted) = verdict_on(disk, opts, path, depth, seen);
        let first = shown(disk, path, depth);
        let below = if verdict is Descend {
            met_in_dir(disk, opts, path, depth + 1, noted, fuel)
        } else {
            seq![]
        };
        let after = if verdict is Descend {
            (walk_dir(disk, opts, path, depth + 1, noted, fuel)->0).1
        } else {
            noted
        };
        let left = met_in_entries(disk, opts, rest, depth, after, fuel);
        let cut = first.len() as int;
        let end = cut + below.len();
        assert(met =~= first + below + left);
        if verdict is Descend {
            law_walk_meets_all_that_is_there(disk, opts, path, depth + 1, noted, fuel);
        }
        lemma_entries_meet_all(disk, opts, rest, depth, after, fuel);
        assert(first =~= met.subrange(0, cut));
        assert(below =~= met.subrange(cut, end));
        assert(left =~= met.subrange(end, end + left.len()));
        lemma_met_in_part(first, met, 0);
        lemma_met_in_part(below, met, cut);
        lemma_met_in_part(left, met, end);
        assert forall|i: int| 0 <= i < entries.len() && (disk.stat)(
            #[trigger] entries[i],
        ) is Some implies met_at(met, entries[i], depth) by {
            if i == 0 {
                assert(first[0].path == path && first[0].depth == depth);
                assert(met_at(first, path, depth));
            } else {
                assert(rest[i - 1] == entries[i]);
                assert(met_at(left, rest[i - 1], depth));
            }
        }
        assert forall|k: int, entry: Seq<u8>|
            #![trigger met[k], holds(disk, met[k].path, entry)]
            {
                &&& 0 <= k < met.len()
                &&& met[k].st.is_dir && !met[k].st.is_symlink
                &&& opts.max_depth is None || met[k].depth < opts.max_depth->0
                &&& holds(disk, met[k].path, entry)
                &&& (disk.stat)(entry) is Some
            } implies met_at(met, entry, met[k].depth + 1) by {
            if k < cut {
                assert(met[k] == first[k]);
                assert(verdict is Descend);
                assert(met_at(below, entry, depth + 1));
            } else if k < end {
                assert(met[k] == below[k - cut]);
                assert(holds(disk, below[k - cut].path, entry));
                assert(met_at(below, entry, below[k - cut].depth + 1));
            } else {
                assert(met[k] == left[k - end]);
                assert(holds(disk, left[k - end].path, entry));
                assert(met_at(left, entry, left[k - end].depth + 1));
            }
        }
        assert forall|k: int| 0 <= k < met.len() implies {
            ||| met[k].depth == depth && entries.contains(met[k].path)
            ||| listed_below(disk, met, #[trigger] met[k], depth)
        } by {
            if k < cut {
                assert(entries[0] == met[k].path);
            } else if k < end {
                let f = below[k - cut];
                assert(met[k] == f);
                let inner = (disk.list)(path)->0;
                if f.depth == depth + 1 && inner.contains(f.path) {
                    assert(met[0] == first[0]);
                    assert(met[0].path == path && met[0].depth == depth);
                    assert(holds(disk, met[0].path, f.path));
                } else {
                    assert(listed_below(disk, below, f, depth + 1));
                    let j = choose|j: int|
                        0 <= j < below.len() && depth + 1 <= (#[trigger] below[j]).depth
                            && below[j].depth + 1 == f.depth && holds(
                            disk,
                            below[j].path,
                            f.path,
                        );
                    assert(met[cut + j] == below[j]);
                }
            } else {
                let f = left[k - end];
                assert(met[k] == f);
                if f.depth == depth && rest.contains(f.path) {
                    let i = choose|i: int| 0 <= i < rest.len() && rest[i] == f.path;
                    assert(entries[i + 1] == f.path);
                } else {
                    assert(listed_below(disk, left, f, depth));
                }
            }
        }
    }
}

/// The entry is a regular file, of inode `key`, with the extension asked for.
pub open spec fn wanted_file(opts: WalkOptions, f: Found, key: InodeKey) -> bool {
    &&& f.st.is_regular && !f.st.is_dir && !f.st.is_symlink
    &&& f.st.inode == key
    &&& opts.filter_ext matches Some(ext) ==> path::lower_extension(f.path) == Some(ext@)
}

/// Without links, a walk counts each regular file that it meets and that has the
/// extension asked for once, under whichever name; and the total is the storage
/// that these files use, or the sum of their logical sizes where that is asked for.
pub proof fn law_walk_adds_up_what_files_use(
    disk: Disk,
    opts: WalkOptions,
    root: Seq<u8>,
    fuel: nat,
    sizes: spec_fn(InodeKey) -> u64,
) -> (keys: Seq<InodeKey>)
    requires
        walk_dir(disk, opts, root, 0, Set::empty(), fuel) is Some,
        !opts.follow_symlinks,
        !opts.include_rsrc,
        forall|path: Seq<u8>|
            ({
                let st = #[trigger] (disk.stat)(path);
                st is Some && st->0.is_regular ==> sizes(st->0.inode) == match opts.size_mode {
                    SizeMode::DiskUsage => st->0.disk_usage,
                    SizeMode::Apparent => st->0.apparent_size,
                }
            }),
    ensures
        ({
            let met = met_in_dir(disk, opts, root, 0, Set::empty(), fuel);
            let files = traversal::files_in(
                (walk_dir(disk, opts, root, 0, Set::empty(), fuel)->0).0,
            );
            &&& keys.no_duplicates()
            &&& forall|key: InodeKey| #[trigger]
                keys.contains(key) <==> exists|k: int|
                    0 <= k < met.len() && wanted_file(opts, #[trigger] met[k], key)
            &&& files.len() == keys.len()
            &&& aggregator::total_bytes(files) == keys.fold_left(
                0int,
                |sum: int, key: InodeKey| sum + sizes(key),
            )
        }),
{
    let met = met_in_dir(disk, opts, root, 0, Set::empty(), fuel);
    let keys = walker::counted_keys(met, opts, Set::empty());
    assert(one_size_each(disk, opts, sizes)) by {
        assert forall|path: Seq<u8>|
            (#[trigger] claim_on(disk, opts, path)) matches Some((key, size)) ==> size == sizes(
                key,
            ) by {
            let st = (disk.stat)(path);
            assert(st is Some && st->0.is_regular ==> sizes(st->0.inode) == match opts.size_mode {
                SizeMode::DiskUsage => st->0.disk_usage,
                SizeMode::Apparent => st->0.apparent_size,
            });
        }
    }
    law_walk_counts_every_inode_once(disk, opts, root, fuel);
    law_walk_adds_up_its_inodes(disk, opts, root, fuel, sizes);
    assert forall|key: InodeKey| #[trigger] keys.contains(key) <==> exists|k: int|
        0 <= k < met.len() && wanted_file(opts, #[trigger] met[k], key) by {
        if walker::claimed(met, opts, key) {
            let k = choose|k: int| 0 <= k < met.len() && #[trigger] walker::claims(
                met[k],
                opts,
                key,
            );
            assert(wanted_file(opts, met[k], key));
        }
        if exists|k: int| 0 <= k < met.len() && wanted_file(opts, #[trigger] met[k], key) {
            let k = choose|k: int| 0 <= k < met.len() && wanted_file(opts, #[trigger] met[k], key);
            assert(walker::claims(met[k], opts, key));
        }
    }
    lemma_sum_is_a_fold(keys, sizes);
    keys
}

proof fn lemma_sum_is_a_fold(keys: Seq<InodeKey>, sizes: spec_fn(InodeKey) -> u64)
    ensures
        walker::sum_of(keys, sizes) == keys.fold_left(
            0int,
            |sum: int, key: InodeKey| sum + sizes(key),
        ),
    decreases keys.len(),
{
    let f = |sum: int, key: InodeKey| sum + sizes(key);
    reveal_with_fuel(Seq::fold_left, 2);
    if keys.len() > 0 {
        lemma_sum_is_a_fold(keys.drop_last(), sizes);
    }
}

} // verus!
