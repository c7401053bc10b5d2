//! Why walks of one and of many threads count the same.
//!
//! Without followed links, threads take exactly the entries that a walk of one
//! thread meets. With followed links they need not: which of two links to a
//! directory is followed depends on which is met first. But they come to the same
//! directories, and so to the same files.

use crate::census::Disk;
use crate::pool::{Job, Pool};
use crate::stat::{FileStat, InodeKey};
use crate::walker::{Found, Verdict, WalkOptions};
use crate::{aggregator, census, path, pool, traversal, walker};
use vstd::prelude::*;

verus! {

/// The directory that the entry at `path` is, or leads to where it is a symbolic
/// link to be followed.
pub open spec fn leads_to(disk: Disk, opts: WalkOptions, path: Seq<u8>) -> Option<InodeKey> {
    match (disk.stat)(path) {
        None => None,
        Some(st) => if st.is_symlink {
            match (disk.target)(path) {
                Some(end) if opts.follow_symlinks && end.is_dir => Some(end.inode),
                _ => None,
            }
        } else if st.is_dir {
            Some(st.inode)
        } else {
            None
        },
    }
}

/// The two disks hold the same directories, and the same files with the same
/// sizes as they are counted; what else they say may differ.
pub open spec fn alike(a: Disk, b: Disk, opts: WalkOptions) -> bool {
    &&& forall|path: Seq<u8>| #[trigger] (a.list)(path) == (b.list)(path)
    &&& forall|path: Seq<u8>| told_alike(#[trigger] (a.stat)(path), (b.stat)(path), opts)
    &&& opts.follow_symlinks ==> forall|path: Seq<u8>|
        told_alike(#[trigger] (a.target)(path), (b.target)(path), opts)
}

pub open spec fn told_alike(a: Option<FileStat>, b: Option<FileStat>, opts: WalkOptions) -> bool {
    match (a, b) {
        (Some(x), Some(y)) => {
            &&& x.inode == y.inode
            &&& x.is_dir == y.is_dir
            &&& x.is_symlink == y.is_symlink
            &&& x.is_regular == y.is_regular
            &&& x.is_regular ==> walker::counted_size(x, opts) == walker::counted_size(y, opts)
        },
        (None, None) => true,
        _ => false,
    }
}

proof fn lemma_alike_verdicts(
    a: Disk,
    b: Disk,
    opts: WalkOptions,
    path: Seq<u8>,
    depth: nat,
    seen: Set<InodeKey>,
)
    requires
        alike(a, b, opts),
    ensures
        census::verdict_on(a, opts, path, depth, seen) == census::verdict_on(
            b,
            opts,
            path,
            depth,
            seen,
        ),
        census::claim_on(a, opts, path) == census::claim_on(b, opts, path),
        leads_to(a, opts, path) == leads_to(b, opts, path),
        (a.stat)(path) is None == (b.stat)(path) is None,
{
    assert(told_alike((a.stat)(path), (b.stat)(path), opts));
    if opts.follow_symlinks {
        assert(told_alike((a.target)(path), (b.target)(path), opts));
    }
}

proof fn lemma_alike_dirs(
    a: Disk,
    b: Disk,
    opts: WalkOptions,
    path: Seq<u8>,
    depth: nat,
    seen: Set<InodeKey>,
    fuel: nat,
)
    requires
        alike(a, b, opts),
    ensures
        census::walk_dir(a, opts, path, depth, seen, fuel) == census::walk_dir(
            b,
            opts,
            path,
            depth,
            seen,
            fuel,
        ),
    decreases fuel, 0nat, 0nat,
{
    assert((a.list)(path) == (b.list)(path));
    if fuel > 0 {
        if let Some(entries) = (a.list)(path) {
            lemma_alike_entries(a, b, opts, entries, depth, seen, (fuel - 1) as nat);
        }
    }
}

proof fn lemma_alike_entries(
    a: Disk,
    b: Disk,
    opts: WalkOptions,
    entries: Seq<Seq<u8>>,
    depth: nat,
    seen: Set<InodeKey>,
    fuel: nat,
)
    requires
        alike(a, b, opts),
    ensures
        census::walk_entries(a, opts, entries, depth, seen, fuel) == census::walk_entries(
            b,
            opts,
            entries,
            depth,
            seen,
            fuel,
        ),
    decreases fuel, 1nat, entries.len(),
{
    if entries.len() > 0 {
        let path = entries[0];
        let rest = entries.drop_first();
        lemma_alike_verdicts(a, b, opts, path, depth, seen);
        let (verdict, met) = census::verdict_on(a, opts, path, depth, seen);
        match verdict {
            Verdict::Descend => {
                lemma_alike_dirs(a, b, opts, path, depth + 1, met, fuel);
                if let Some((_, after)) = census::walk_dir(a, opts, path, depth + 1, met, fuel) {
                    lemma_alike_entries(a, b, opts, rest, depth, after, fuel);
                }
            },
            _ => {
                lemma_alike_entries(a, b, opts, rest, depth, met, fuel);
            },
        }
    }
}

proof fn lemma_alike_sizes(
    disk: Disk,
    other: Disk,
    opts: WalkOptions,
    sizes: spec_fn(InodeKey) -> u64,
)
    requires
        alike(disk, other, opts),
        census::one_size_each(disk, opts, sizes),
    ensures
        census::one_size_each(other, opts, sizes),
{
    assert forall|path: Seq<u8>|
        (#[trigger] census::claim_on(other, opts, path)) matches Some((key, size)) ==> size
            == sizes(key) by {
        lemma_alike_verdicts(disk, other, opts, path, 0, Set::empty());
        assert(census::claim_on(disk, opts, path) == census::claim_on(other, opts, path));
    }
}

/// The walkers agree: without followed links, and with a depth limit or not, a walk of many threads ends with
/// the files and bytes of a walk of one thread, whatever turns the threads take.
/// The one may be told of its entries by `disk` and the other by `other`, as
/// long as both tell of the same files.
pub proof fn law_walkers_agree_without_links(
    disk: Disk,
    other: Disk,
    opts: WalkOptions,
    root: Seq<u8>,
    fuel: nat,
    turns: Seq<int>,
    sizes: spec_fn(InodeKey) -> u64,
)
    requires
        !opts.follow_symlinks,
        alike(disk, other, opts),
        census::one_size_each(disk, opts, sizes),
        census::walk_dir(disk, opts, root, 0, Set::empty(), fuel) is Some,
        pool::finished(pool::run(other, opts, root, turns)),
        ({
            let files = traversal::files_in(
                (census::walk_dir(disk, opts, root, 0, Set::empty(), fuel)->0).0,
            );
            aggregator::total_bytes(files) <= u64::MAX && files.len() <= u64::MAX
        }),
    ensures
        ({
            let files = traversal::files_in(
                (census::walk_dir(disk, opts, root, 0, Set::empty(), fuel)->0).0,
            );
            pool::closed_up(pool::run(other, opts, root, turns).jobs) == (
                aggregator::total_bytes(files),
                files.len(),
            )
        }),
{
    let met = census::met_in_dir(other, opts, root, 0, Set::empty(), fuel);
    let taken = pool::run(other, opts, root, turns).taken;
    lemma_alike_dirs(disk, other, opts, root, 0, Set::empty(), fuel);
    pool::law_threads_take_what_a_walk_meets(other, opts, root, fuel, turns);
    pool::law_threads_count_what_is_judged(other, opts, root, turns);
    census::law_walk_judges_what_it_meets(other, opts, root, 0, Set::empty(), fuel);
    census::lemma_met_in_dir_is_from_disk(other, opts, root, 0, Set::empty(), fuel);
    lemma_alike_sizes(disk, other, opts, sizes);
    census::lemma_entries_from_disk(other, opts, met);
    census::lemma_entries_from_disk(other, opts, taken);
    assert forall|key: InodeKey| #[trigger]
        walker::claimed(taken, opts, key) <==> walker::claimed(met, opts, key) by {
        if walker::claimed(taken, opts, key) {
            lemma_claimed_among_the_same(taken, met, opts, key);
        }
        if walker::claimed(met, opts, key) {
            lemma_claimed_among_the_same(met, taken, opts, key);
        }
    }
    walker::law_order_of_entries_does_not_matter(taken, met, opts, Set::empty(), sizes);
}

proof fn lemma_claimed_among_the_same(
    a: Seq<Found>,
    b: Seq<Found>,
    opts: WalkOptions,
    key: InodeKey,
)
    requires
        a.to_multiset() == b.to_multiset(),
        walker::claimed(a, opts, key),
    ensures
        walker::claimed(b, opts, key),
{
    let i = choose|i: int| 0 <= i < a.len() && #[trigger] walker::claims(a[i], opts, key);
    a.to_multiset_ensures();
    b.to_multiset_ensures();
    assert(a.contains(a[i]));
    assert(b.to_multiset().count(a[i]) > 0);
    assert(b.contains(a[i]));
    let j = choose|j: int| 0 <= j < b.len() && b[j] == a[i];
    assert(walker::claims(b[j], opts, key));
}

/// The state after these turns, from any state.
pub open spec fn played(disk: Disk, opts: WalkOptions, from: Pool, turns: Seq<int>) -> Pool
    decreases turns.len(),
{
    if turns.len() == 0 {
        from
    } else {
        pool::turn(disk, opts, played(disk, opts, from, turns.drop_last()), turns.last())
    }
}

proof fn lemma_run_is_played(disk: Disk, opts: WalkOptions, root: Seq<u8>, turns: Seq<int>)
    ensures
        pool::run(disk, opts, root, turns) == played(
            disk,
            opts,
            pool::started(disk, root),
            turns,
        ),
    decreases turns.len(),
{
    if turns.len() > 0 {
        lemma_run_is_played(disk, opts, root, turns.drop_last());
    }
}

proof fn lemma_played_on(disk: Disk, opts: WalkOptions, from: Pool, a: Seq<int>, b: Seq<int>)
    ensures
        played(disk, opts, from, a + b) == played(disk, opts, played(disk, opts, from, a), b),
    decreases b.len(),
{
    if b.len() == 0 {
        assert(a + b =~= a);
    } else {
        assert((a + b).drop_last() =~= a + b.drop_last());
        lemma_played_on(disk, opts, from, a, b.drop_last());
    }
}

proof fn lemma_one_turn(disk: Disk, opts: WalkOptions, from: Pool, id: int)
    ensures
        played(disk, opts, from, seq![id]) == pool::turn(disk, opts, from, id),
{
    assert(seq![id].drop_last() =~= seq![]);
    assert(played(disk, opts, from, seq![id].drop_last()) == from);
}

/// One job has gone through its entries, and all jobs that came of it are done;
/// the other jobs are as they were.
spec fn gone_through(before: Pool, id: int, after: Pool) -> bool {
    &&& after.jobs.len() >= before.jobs.len()
    &&& after.jobs[id].todo.len() == 0
    &&& forall|i: int|
        0 <= i < before.jobs.len() && i != id ==> #[trigger] after.jobs[i] == before.jobs[i]
    &&& forall|i: int|
        before.jobs.len() <= i < after.jobs.len() ==> (#[trigger] after.jobs[i]).todo.len() == 0
}

/// The turns in which one job, and then each job that comes of it, goes through
/// its entries, in the order of a walk of one thread.
proof fn lemma_entries_as_turns(
    disk: Disk,
    opts: WalkOptions,
    from: Pool,
    id: int,
    fuel: nat,
) -> (turns: Seq<int>)
    requires
        0 <= id < from.jobs.len(),
        census::walk_entries(
            disk,
            opts,
            from.jobs[id].todo,
            from.jobs[id].scan.depth,
            from.seen,
            fuel,
        ) is Some,
    ensures
        ({
            let job = from.jobs[id];
            let end = played(disk, opts, from, turns);
            &&& gone_through(from, id, end)
            &&& end.seen == (census::walk_entries(
                disk,
                opts,
                job.todo,
                job.scan.depth,
                from.seen,
                fuel,
            )->0).1
            &&& end.taken == from.taken + census::met_in_entries(
                disk,
                opts,
                job.todo,
                job.scan.depth,
                from.seen,
                fuel,
            )
        }),
    decreases fuel, from.jobs[id].todo.len(),
{
    let job = from.jobs[id];
    let depth = job.scan.depth;
    if job.todo.len() == 0 {
        let none = Seq::<int>::empty();
        assert(played(disk, opts, from, none) == from);
        assert(from.taken + seq![] =~= from.taken);
        none
    } else {
        let path = job.todo[0];
        let rest = job.todo.drop_first();
        let (verdict, met) = census::verdict_on(disk, opts, path, depth, from.seen);
        let first = seq![id];
        let next = pool::turn(disk, opts, from, id);
        lemma_one_turn(disk, opts, from, id);
        assert(next.seen == met);
        assert(next.taken =~= from.taken + census::shown(disk, path, depth));
        assert(next.jobs[id].todo == rest && next.jobs[id].scan.depth == depth);
        if verdict is Descend {
            let n = from.jobs.len() as int;
            let new = pool::opened(disk, path, depth + 1, id);
            assert(next.jobs[n] == new);
            let below = census::met_in_dir(disk, opts, path, depth + 1, met, fuel);
            let after = (census::walk_dir(disk, opts, path, depth + 1, met, fuel)->0).1;
            let inner = match (disk.list)(path) {
                None => {
                    let none = Seq::<int>::empty();
                    assert(played(disk, opts, next, none) == next);
                    assert(next.taken + below =~= next.taken);
                    none
                },
                Some(_) => lemma_entries_as_turns(disk, opts, next, n, (fuel - 1) as nat),
            };
            let back = played(disk, opts, next, inner);
            assert(gone_through(next, n, back));
            assert(back.seen == after);
            assert(back.taken == next.taken + below);
            assert(back.jobs[id] == next.jobs[id]);
            let outer = lemma_entries_as_turns(disk, opts, back, id, fuel);
            let end = played(disk, opts, back, outer);
            lemma_played_on(disk, opts, from, first, inner);
            lemma_played_on(disk, opts, from, first + inner, outer);
            let left = census::met_in_entries(disk, opts, rest, depth, after, fuel);
            assert(end.taken =~= from.taken + (census::shown(disk, path, depth) + (below + left)));
            assert forall|i: int| 0 <= i < from.jobs.len() && i != id implies #[trigger]
                end.jobs[i] == from.jobs[i] by {
                assert(end.jobs[i] == back.jobs[i]);
                assert(back.jobs[i] == next.jobs[i]);
            }
            assert forall|i: int| from.jobs.len() <= i < end.jobs.len() implies (
            #[trigger] end.jobs[i]).todo.len() == 0 by {
                if i < back.jobs.len() {
                    assert(end.jobs[i] == back.jobs[i]);
                }
            }
            first + inner + outer
        } else {
            let outer = lemma_entries_as_turns(disk, opts, next, id, fuel);
            let end = played(disk, opts, next, outer);
            lemma_played_on(disk, opts, from, first, outer);
            let left = census::met_in_entries(disk, opts, rest, depth, met, fuel);
            assert(end.taken =~= from.taken + (census::shown(disk, path, depth) + left));
            assert forall|i: int| 0 <= i < from.jobs.len() && i != id implies #[trigger]
                end.jobs[i] == from.jobs[i] by {
                assert(end.jobs[i] == next.jobs[i]);
            }
            first + outer
        }
    }
}

/// A walk of one thread is a walk of many threads that take these turns: it meets
/// what they take, in the same order, and notes the same inodes.
pub proof fn law_walk_of_one_thread_is_a_way_to_take_turns(
    disk: Disk,
    opts: WalkOptions,
    root: Seq<u8>,
    fuel: nat,
) -> (turns: Seq<int>)
    requires
        census::walk_dir(disk, opts, root, 0, Set::empty(), fuel) is Some,
    ensures
        ({
            let end = pool::run(disk, opts, root, turns);
            &&& pool::finished(end)
            &&& end.taken == census::met_in_dir(disk, opts, root, 0, Set::empty(), fuel)
            &&& end.seen == (census::walk_dir(disk, opts, root, 0, Set::empty(), fuel)->0).1
        }),
{
    let start = pool::started(disk, root);
    let turns = match (disk.list)(root) {
        None => {
            let none = Seq::<int>::empty();
            assert(played(disk, opts, start, none) == start);
            none
        },
        Some(_) => lemma_entries_as_turns(disk, opts, start, 0, (fuel - 1) as nat),
    };
    lemma_run_is_played(disk, opts, root, turns);
    let end = pool::run(disk, opts, root, turns);
    let met = census::met_in_dir(disk, opts, root, 0, Set::empty(), fuel);
    assert(Seq::<Found>::empty() + met =~= met);
    assert(end.taken =~= met);
    assert forall|i: int| 0 <= i < end.jobs.len() implies (#[trigger] end.jobs[i]).todo.len()
        == 0 by {}
    turns
}

/// A directory with this inode is being scanned, or has been.
pub open spec fn opened_for(disk: Disk, opts: WalkOptions, jobs: Seq<Job>, key: InodeKey) -> bool {
    exists|i: int|
        0 <= i < jobs.len() && #[trigger] leads_to(disk, opts, jobs[i].scan.path) == Some(key)
}

/// The entry has been taken, or the system says nothing of it.
pub open spec fn handled(disk: Disk, taken: Seq<Found>, entry: Seq<u8>) -> bool {
    (disk.stat)(entry) is None || exists|t: int|
        0 <= t < taken.len() && (#[trigger] taken[t]).path == entry
}

/// The entry is listed in a directory that is being scanned, or has been.
pub open spec fn listed_in(disk: Disk, jobs: Seq<Job>, entry: Seq<u8>) -> bool {
    exists|i: int|
        0 <= i < jobs.len() && #[trigger] pool::listing(disk, jobs[i].scan.path).contains(entry)
}

/// Every directory but the root was put aside by an earlier job, which lists it.
spec fn grown_from_root(disk: Disk, opts: WalkOptions, root: Seq<u8>, jobs: Seq<Job>) -> bool {
    &&& jobs.len() > 0
    &&& jobs[0].scan.path == root
    &&& forall|i: int| 0 < i < jobs.len() ==> grown_from(disk, opts, jobs, #[trigger] jobs[i], i)
}

spec fn grown_from(disk: Disk, opts: WalkOptions, jobs: Seq<Job>, job: Job, i: int) -> bool {
    &&& 0 <= job.above < i
    &&& leads_to(disk, opts, job.scan.path) is Some
    &&& pool::listing(disk, jobs[job.above].scan.path).contains(job.scan.path)
}

/// All entries but those a job has left have been handled.
spec fn all_handled(disk: Disk, state: Pool) -> bool {
    forall|i: int, n: int|
        0 <= i < state.jobs.len() && 0 <= n < pool::listing(disk, state.jobs[i].scan.path).len()
            - state.jobs[i].todo.len() ==> #[trigger] handled(
            disk,
            state.taken,
            pool::listing(disk, state.jobs[i].scan.path)[n],
        )
}

/// All entries taken are listed somewhere.
spec fn all_taken_listed(disk: Disk, state: Pool) -> bool {
    forall|t: int|
        0 <= t < state.taken.len() ==> #[trigger] listed_in(
            disk,
            state.jobs,
            state.taken[t].path,
        )
}

/// All directories that entries taken lead to have been opened.
spec fn all_led_to_opened(disk: Disk, opts: WalkOptions, state: Pool) -> bool {
    forall|t: int|
        0 <= t < state.taken.len() ==> (#[trigger] leads_to(disk, opts, state.taken[t].path) matches Some(
            key,
        ) ==> opened_for(disk, opts, state.jobs, key))
}

/// The jobs stay where they are, and others may come.
spec fn more_jobs(before: Seq<Job>, after: Seq<Job>) -> bool {
    &&& before.len() <= after.len()
    &&& forall|i: int|
        0 <= i < before.len() ==> (#[trigger] after[i]).scan.path == before[i].scan.path
            && after[i].above == before[i].above
}

proof fn lemma_more_jobs(disk: Disk, opts: WalkOptions, before: Seq<Job>, after: Seq<Job>)
    requires
        more_jobs(before, after),
    ensures
        forall|key: InodeKey| #[trigger]
            opened_for(disk, opts, before, key) ==> opened_for(disk, opts, after, key),
        forall|entry: Seq<u8>| #[trigger]
            listed_in(disk, before, entry) ==> listed_in(disk, after, entry),
{
    assert forall|key: InodeKey| #[trigger] opened_for(disk, opts, before, key) implies opened_for(
        disk,
        opts,
        after,
        key,
    ) by {
        let i = choose|i: int|
            0 <= i < before.len() && #[trigger] leads_to(disk, opts, before[i].scan.path) == Some(
                key,
            );
        assert(leads_to(disk, opts, after[i].scan.path) == Some(key));
    }
    assert forall|entry: Seq<u8>| #[trigger] listed_in(disk, before, entry) implies listed_in(
        disk,
        after,
        entry,
    ) by {
        let i = choose|i: int|
            0 <= i < before.len() && #[trigger] pool::listing(
                disk,
                before[i].scan.path,
            ).contains(entry);
        assert(pool::listing(disk, after[i].scan.path).contains(entry));
    }
}

proof fn lemma_turn_adds_jobs(disk: Disk, opts: WalkOptions, before: Pool, id: int)
    ensures
        more_jobs(before.jobs, pool::turn(disk, opts, before, id).jobs),
{
}

proof fn lemma_grown_from_root(
    disk: Disk,
    opts: WalkOptions,
    root: Seq<u8>,
    turns: Seq<int>,
)
    ensures
        grown_from_root(disk, opts, root, pool::run(disk, opts, root, turns).jobs),
        all_taken_listed(disk, pool::run(disk, opts, root, turns)),
    decreases turns.len(),
{
    let end = pool::run(disk, opts, root, turns);
    if turns.len() > 0 {
        let before = pool::run(disk, opts, root, turns.drop_last());
        let id = turns.last();
        lemma_grown_from_root(disk, opts, root, turns.drop_last());
        pool::lemma_jobs_are_listed(disk, opts, root, turns.drop_last());
        lemma_turn_adds_jobs(disk, opts, before, id);
        lemma_more_jobs(disk, opts, before.jobs, end.jobs);
        if 0 <= id < before.jobs.len() && before.jobs[id].todo.len() > 0 {
            let job = before.jobs[id];
            let path = job.todo[0];
            let all = pool::listing(disk, job.scan.path);
            assert(pool::listed(disk, job));
            assert(all[all.len() - job.todo.len()] == path);
            assert(all.contains(path));
            assert(pool::listing(disk, end.jobs[id].scan.path).contains(path));
            assert(listed_in(disk, end.jobs, path));
            assert forall|i: int| 0 < i < end.jobs.len() implies grown_from(
                disk,
                opts,
                end.jobs,
                #[trigger] end.jobs[i],
                i,
            ) by {
                if i < before.jobs.len() {
                    assert(grown_from(disk, opts, before.jobs, before.jobs[i], i));
                }
            }
            assert forall|t: int| 0 <= t < end.taken.len() implies #[trigger] listed_in(
                disk,
                end.jobs,
                end.taken[t].path,
            ) by {
                if t < before.taken.len() {
                    assert(listed_in(disk, before.jobs, before.taken[t].path));
                }
            }
        }
    }
}

proof fn lemma_handled(disk: Disk, opts: WalkOptions, root: Seq<u8>, turns: Seq<int>)
    ensures
        all_handled(disk, pool::run(disk, opts, root, turns)),
    decreases turns.len(),
{
    let end = pool::run(disk, opts, root, turns);
    if turns.len() > 0 {
        let before = pool::run(disk, opts, root, turns.drop_last());
        let id = turns.last();
        lemma_handled(disk, opts, root, turns.drop_last());
        pool::lemma_jobs_are_listed(disk, opts, root, turns.drop_last());
        if 0 <= id < before.jobs.len() && before.jobs[id].todo.len() > 0 {
            let job = before.jobs[id];
            assert(pool::listed(disk, job));
            assert forall|e: Seq<u8>| #[trigger] handled(disk, before.taken, e) implies handled(
                disk,
                end.taken,
                e,
            ) by {
                if (disk.stat)(e) is Some {
                    let t = choose|t: int|
                        0 <= t < before.taken.len() && (#[trigger] before.taken[t]).path == e;
                    assert(end.taken[t].path == e);
                }
            }
            let path = job.todo[0];
            assert(handled(disk, end.taken, path)) by {
                if (disk.stat)(path) is Some {
                    assert(end.taken[end.taken.len() - 1].path == path);
                }
            }
            assert forall|i: int, n: int|
                0 <= i < end.jobs.len() && 0 <= n < pool::listing(
                    disk,
                    end.jobs[i].scan.path,
                ).len() - end.jobs[i].todo.len() implies #[trigger] handled(
                disk,
                end.taken,
                pool::listing(disk, end.jobs[i].scan.path)[n],
            ) by {
                if i < before.jobs.len() {
                    let all = pool::listing(disk, before.jobs[i].scan.path);
                    assert(end.jobs[i].scan.path == before.jobs[i].scan.path);
                    if n < all.len() - before.jobs[i].todo.len() {
                        assert(handled(disk, before.taken, all[n]));
                    } else {
                        assert(i == id);
                        assert(all[n] == path);
                    }
                }
            }
        }
    }
}

proof fn lemma_led_to_opened(disk: Disk, opts: WalkOptions, root: Seq<u8>, turns: Seq<int>)
    requires
        opts.max_depth is None,
        opts.follow_symlinks ==> census::inodes_of_one_kind(disk),
    ensures
        all_led_to_opened(disk, opts, pool::run(disk, opts, root, turns)),
    decreases turns.len(),
{
    let end = pool::run(disk, opts, root, turns);
    if turns.len() > 0 {
        let before = pool::run(disk, opts, root, turns.drop_last());
        let id = turns.last();
        lemma_led_to_opened(disk, opts, root, turns.drop_last());
        lemma_turn_adds_jobs(disk, opts, before, id);
        lemma_more_jobs(disk, opts, before.jobs, end.jobs);
        if 0 <= id < before.jobs.len() && before.jobs[id].todo.len() > 0 && (disk.stat)(
            before.jobs[id].todo[0],
        ) is Some {
            let f = pool::next_found(disk, before.jobs[id]);
            let last = end.taken.len() - 1;
            assert(end.taken[last] == f);
            if let Some(key) = leads_to(disk, opts, f.path) {
                lemma_entry_led_to_opened(disk, opts, root, turns, key);
            }
            assert forall|t: int| 0 <= t < end.taken.len() implies (#[trigger] leads_to(
                disk,
                opts,
                end.taken[t].path,
            ) matches Some(key) ==> opened_for(disk, opts, end.jobs, key)) by {
                if t < last {
                    assert(end.taken[t] == before.taken[t]);
                }
            }
        }
    }
}

proof fn lemma_entry_led_to_opened(
    disk: Disk,
    opts: WalkOptions,
    root: Seq<u8>,
    turns: Seq<int>,
    key: InodeKey,
)
    requires
        opts.max_depth is None,
        opts.follow_symlinks ==> census::inodes_of_one_kind(disk),
        turns.len() > 0,
        ({
            let before = pool::run(disk, opts, root, turns.drop_last());
            let id = turns.last();
            &&& all_led_to_opened(disk, opts, before)
            &&& 0 <= id < before.jobs.len()
            &&& before.jobs[id].todo.len() > 0
            &&& leads_to(disk, opts, before.jobs[id].todo[0]) == Some(key)
        }),
    ensures
        opened_for(disk, opts, pool::run(disk, opts, root, turns).jobs, key),
{
    let before = pool::run(disk, opts, root, turns.drop_last());
    let end = pool::run(disk, opts, root, turns);
    let id = turns.last();
    let path = before.jobs[id].todo[0];
    let f = pool::next_found(disk, before.jobs[id]);
    let last = end.taken.len() - 1;
    assert(end.taken[last] == f);
    lemma_turn_adds_jobs(disk, opts, before, id);
    lemma_more_jobs(disk, opts, before.jobs, end.jobs);
    let (verdict, _) = walker::judged(path, f.st, f.target, opts, f.depth, before.seen);
    if verdict is Descend {
        assert(end.jobs[before.jobs.len() as int].scan.path == path);
        assert(leads_to(disk, opts, end.jobs[before.jobs.len() as int].scan.path) == Some(key));
    } else {
        assert(f.st.is_symlink && before.seen.contains(key));
        pool::law_threads_count_what_is_judged(disk, opts, root, turns.drop_last());
        pool::law_threads_count_what_is_judged(disk, opts, root, turns);
        walker::law_every_inode_is_noted(before.taken, opts, Set::empty());
        census::lemma_entries_from_disk(disk, opts, end.taken);
        assert(walker::led_to(end.taken[last], opts) == Some(key));
        if walker::claimed(before.taken, opts, key) {
            let i = choose|i: int|
                0 <= i < before.taken.len() && #[trigger] walker::claims(
                    before.taken[i],
                    opts,
                    key,
                );
            assert(end.taken[i] == before.taken[i]);
            assert(walker::claims(end.taken[i], opts, key));
        }
        assert(walker::led_into(before.taken, opts, key));
        let j = choose|j: int|
            0 <= j < before.taken.len() && #[trigger] walker::led_to(before.taken[j], opts)
                == Some(key);
        let g = before.taken[j];
        assert((disk.stat)(g.path) == Some(g.st) && (disk.target)(g.path) == g.target);
        assert(leads_to(disk, opts, before.taken[j].path) == Some(key));
    }
}

/// The same name, and the same entry under it.
pub open spec fn same_entry(disk: Disk, a: Seq<u8>, b: Seq<u8>) -> bool {
    &&& path::file_name(a) == path::file_name(b)
    &&& (disk.stat)(a) == (disk.stat)(b)
    &&& (disk.target)(a) == (disk.target)(b)
}

/// A directory lists the same names with the same entries, on whichever path it
/// is come to.
pub open spec fn one_listing_each(disk: Disk, opts: WalkOptions) -> bool {
    forall|p: Seq<u8>, q: Seq<u8>, i: int|
        #![trigger pool::listing(disk, p)[i], leads_to(disk, opts, q)]
        leads_to(disk, opts, p) is Some && leads_to(disk, opts, p) == leads_to(disk, opts, q) && 0
            <= i < pool::listing(disk, p).len() ==> has_same_entry(
            disk,
            pool::listing(disk, q),
            pool::listing(disk, p)[i],
        )
}

pub open spec fn has_same_entry(disk: Disk, entries: Seq<Seq<u8>>, entry: Seq<u8>) -> bool {
    exists|j: int| 0 <= j < entries.len() && #[trigger] same_entry(disk, entry, entries[j])
}

/// The two entries count alike and lead to the same directory.
spec fn matched(disk: Disk, opts: WalkOptions, a: Seq<u8>, b: Seq<u8>) -> bool {
    &&& census::claim_on(disk, opts, a) == census::claim_on(disk, opts, b)
    &&& leads_to(disk, opts, a) == leads_to(disk, opts, b)
}

/// The two paths come to the same directory.
spec fn same_dir(disk: Disk, opts: WalkOptions, p: Seq<u8>, q: Seq<u8>) -> bool {
    p == q || (leads_to(disk, opts, p) is Some && leads_to(disk, opts, p) == leads_to(
        disk,
        opts,
        q,
    ))
}

proof fn lemma_same_entry_matches(disk: Disk, opts: WalkOptions, a: Seq<u8>, b: Seq<u8>)
    requires
        same_entry(disk, a, b),
    ensures
        matched(disk, opts, a, b),
{
    assert(path::lower_extension(a) == path::lower_extension(b));
    assert(walker::wanted_ext(a, opts) == walker::wanted_ext(b, opts));
}

proof fn lemma_alike_matches(
    disk: Disk,
    other: Disk,
    opts: WalkOptions,
    a: Seq<u8>,
    b: Seq<u8>,
)
    requires
        alike(disk, other, opts),
        matched(disk, opts, a, b),
    ensures
        matched(other, opts, a, b),
{
    lemma_alike_verdicts(disk, other, opts, a, 0, Set::empty());
    lemma_alike_verdicts(disk, other, opts, b, 0, Set::empty());
}

/// A directory has the same entry on another path to it.
proof fn lemma_entry_on_another_path(
    disk: Disk,
    opts: WalkOptions,
    p: Seq<u8>,
    q: Seq<u8>,
    i: int,
) -> (j: int)
    requires
        one_listing_each(disk, opts),
        leads_to(disk, opts, p) is Some,
        leads_to(disk, opts, p) == leads_to(disk, opts, q),
        0 <= i < pool::listing(disk, p).len(),
    ensures
        0 <= j < pool::listing(disk, q).len(),
        same_entry(disk, pool::listing(disk, p)[i], pool::listing(disk, q)[j]),
{
    let e = pool::listing(disk, p)[i];
    let b = pool::listing(disk, q);
    assert(has_same_entry(disk, b, e));
    choose|j: int| 0 <= j < b.len() && #[trigger] same_entry(disk, e, b[j])
}

/// For an entry in a directory, the entry that matches it on another path to the
/// directory. `disk` says where paths lead; `other` is alike.
proof fn lemma_matching_entry(
    disk: Disk,
    other: Disk,
    opts: WalkOptions,
    p: Seq<u8>,
    q: Seq<u8>,
    entry: Seq<u8>,
) -> (n: int)
    requires
        alike(disk, other, opts),
        one_listing_each(disk, opts),
        same_dir(other, opts, p, q),
        pool::listing(other, p).contains(entry),
    ensures
        0 <= n < pool::listing(other, q).len(),
        matched(other, opts, entry, pool::listing(other, q)[n]),
{
    let a = pool::listing(other, p);
    let b = pool::listing(other, q);
    assert((disk.list)(p) == (other.list)(p));
    assert((disk.list)(q) == (other.list)(q));
    let i = choose|i: int| 0 <= i < a.len() && a[i] == entry;
    if p == q {
        i
    } else {
        lemma_alike_verdicts(disk, other, opts, p, 0, Set::empty());
        lemma_alike_verdicts(disk, other, opts, q, 0, Set::empty());
        let j = lemma_entry_on_another_path(disk, opts, p, q, i);
        lemma_same_entry_matches(disk, opts, entry, b[j]);
        lemma_alike_matches(disk, other, opts, entry, b[j]);
        j
    }
}

/// What two walks that are done have in common: the entries of each have been
/// handled, and where these lead has been gone to.
spec fn explored(disk: Disk, opts: WalkOptions, root: Seq<u8>, state: Pool) -> bool {
    &&& grown_from_root(disk, opts, root, state.jobs)
    &&& all_taken_listed(disk, state)
    &&& all_handled(disk, state)
    &&& all_led_to_opened(disk, opts, state)
    &&& census::from_disk(disk, state.taken)
    &&& pool::finished(state)
}

/// An entry listed in a directory that was scanned has been taken.
proof fn lemma_listed_is_taken(
    disk: Disk,
    opts: WalkOptions,
    root: Seq<u8>,
    state: Pool,
    i: int,
    n: int,
) -> (t: int)
    requires
        explored(disk, opts, root, state),
        0 <= i < state.jobs.len(),
        0 <= n < pool::listing(disk, state.jobs[i].scan.path).len(),
        (disk.stat)(pool::listing(disk, state.jobs[i].scan.path)[n]) is Some,
    ensures
        0 <= t < state.taken.len(),
        state.taken[t].path == pool::listing(disk, state.jobs[i].scan.path)[n],
{
    let e = pool::listing(disk, state.jobs[i].scan.path)[n];
    assert(state.jobs[i].todo.len() == 0);
    assert(handled(disk, state.taken, e));
    choose|t: int| 0 <= t < state.taken.len() && (#[trigger] state.taken[t]).path == e
}

/// A directory that one walk has come to, the other has come to as well.
proof fn lemma_same_directories(
    disk: Disk,
    other: Disk,
    opts: WalkOptions,
    root: Seq<u8>,
    a: Pool,
    b: Pool,
    j: int,
) -> (i: int)
    requires
        alike(disk, other, opts),
        one_listing_each(disk, opts),
        explored(other, opts, root, a),
        explored(other, opts, root, b),
        0 <= j < b.jobs.len(),
    ensures
        0 <= i < a.jobs.len(),
        same_dir(other, opts, b.jobs[j].scan.path, a.jobs[i].scan.path),
    decreases j,
{
    if j == 0 {
        0
    } else {
        let job = b.jobs[j];
        assert(grown_from(other, opts, b.jobs, job, j));
        let up = lemma_same_directories(disk, other, opts, root, a, b, job.above);
        let q = a.jobs[up].scan.path;
        let n = lemma_matching_entry(
            disk,
            other,
            opts,
            b.jobs[job.above].scan.path,
            q,
            job.scan.path,
        );
        let e = pool::listing(other, q)[n];
        let key = leads_to(other, opts, job.scan.path)->0;
        assert(leads_to(other, opts, e) == Some(key));
        let t = lemma_listed_is_taken(other, opts, root, a, up, n);
        assert(leads_to(other, opts, a.taken[t].path) == Some(key));
        assert(opened_for(other, opts, a.jobs, key));
        choose|i: int|
            0 <= i < a.jobs.len() && #[trigger] leads_to(other, opts, a.jobs[i].scan.path) == Some(
                key,
            )
    }
}

/// A file that one walk has to count, the other has to count as well.
proof fn lemma_same_claims(
    disk: Disk,
    other: Disk,
    opts: WalkOptions,
    root: Seq<u8>,
    a: Pool,
    b: Pool,
    key: InodeKey,
)
    requires
        alike(disk, other, opts),
        one_listing_each(disk, opts),
        explored(other, opts, root, a),
        explored(other, opts, root, b),
        walker::claimed(b.taken, opts, key),
    ensures
        walker::claimed(a.taken, opts, key),
{
    let s = choose|s: int| 0 <= s < b.taken.len() && #[trigger] walker::claims(
        b.taken[s],
        opts,
        key,
    );
    let f = b.taken[s];
    assert((other.stat)(f.path) == Some(f.st) && (other.target)(f.path) == f.target);
    assert(census::claim_on(other, opts, f.path) == walker::claim(f, opts));
    assert(listed_in(other, b.jobs, b.taken[s].path));
    let j = choose|j: int|
        0 <= j < b.jobs.len() && #[trigger] pool::listing(
            other,
            b.jobs[j].scan.path,
        ).contains(f.path);
    let i = lemma_same_directories(disk, other, opts, root, a, b, j);
    let q = a.jobs[i].scan.path;
    let n = lemma_matching_entry(disk, other, opts, b.jobs[j].scan.path, q, f.path);
    let e = pool::listing(other, q)[n];
    assert(census::claim_on(other, opts, e) == walker::claim(f, opts));
    let t = lemma_listed_is_taken(other, opts, root, a, i, n);
    let g = a.taken[t];
    assert((other.stat)(g.path) == Some(g.st) && (other.target)(g.path) == g.target);
    assert(census::claim_on(other, opts, g.path) == walker::claim(g, opts));
    assert(walker::claims(a.taken[t], opts, key));
}

proof fn lemma_explored(disk: Disk, opts: WalkOptions, root: Seq<u8>, turns: Seq<int>)
    requires
        opts.max_depth is None,
        opts.follow_symlinks ==> census::inodes_of_one_kind(disk),
        pool::finished(pool::run(disk, opts, root, turns)),
    ensures
        explored(disk, opts, root, pool::run(disk, opts, root, turns)),
{
    lemma_grown_from_root(disk, opts, root, turns);
    lemma_handled(disk, opts, root, turns);
    lemma_led_to_opened(disk, opts, root, turns);
    pool::law_threads_count_what_is_judged(disk, opts, root, turns);
}

proof fn lemma_alike_kinds(disk: Disk, other: Disk, opts: WalkOptions)
    requires
        alike(disk, other, opts),
        opts.follow_symlinks,
        census::inodes_of_one_kind(disk),
    ensures
        census::inodes_of_one_kind(other),
{
    assert forall|p: Seq<u8>, q: Seq<u8>, key: InodeKey| #[trigger]
        census::said_dir((other.target)(p), key) implies !#[trigger] census::said_file(
        (other.stat)(q),
        key,
    ) by {
        assert(told_alike((disk.target)(p), (other.target)(p), opts));
        assert(told_alike((disk.stat)(q), (other.stat)(q), opts));
        assert(census::said_dir((disk.target)(p), key));
        assert(!census::said_file((disk.stat)(q), key));
    }
    assert forall|p: Seq<u8>, q: Seq<u8>, key: InodeKey| #[trigger]
        census::said_dir((other.target)(p), key) implies !#[trigger] census::said_file(
        (other.target)(q),
        key,
    ) by {
        assert(told_alike((disk.target)(p), (other.target)(p), opts));
        assert(told_alike((disk.target)(q), (other.target)(q), opts));
        assert(census::said_dir((disk.target)(p), key));
        assert(!census::said_file((disk.target)(q), key));
    }
}

/// The walkers agree through links: where there is no depth limit, a walk of many
/// threads ends with the files and bytes of a walk of one thread, whatever turns
/// the threads take, and whichever of several links to a directory they come to
/// first. A directory is to have the same listing on every path to it.
pub proof fn law_walkers_agree_through_links(
    disk: Disk,
    other: Disk,
    opts: WalkOptions,
    root: Seq<u8>,
    fuel: nat,
    turns: Seq<int>,
    sizes: spec_fn(InodeKey) -> u64,
)
    requires
        opts.max_depth is None,
        alike(disk, other, opts),
        one_listing_each(disk, opts),
        opts.follow_symlinks ==> census::inodes_of_one_kind(disk),
        census::one_size_each(disk, opts, sizes),
        census::walk_dir(disk, opts, root, 0, Set::empty(), fuel) is Some,
        pool::finished(pool::run(other, opts, root, turns)),
        ({
            let files = traversal::files_in(
                (census::walk_dir(disk, opts, root, 0, Set::empty(), fuel)->0).0,
            );
            aggregator::total_bytes(files) <= u64::MAX && files.len() <= u64::MAX
        }),
    ensures
        ({
            let files = traversal::files_in(
                (census::walk_dir(disk, opts, root, 0, Set::empty(), fuel)->0).0,
            );
            pool::closed_up(pool::run(other, opts, root, turns).jobs) == (
                aggregator::total_bytes(files),
                files.len(),
            )
        }),
{
    lemma_alike_dirs(disk, other, opts, root, 0, Set::empty(), fuel);
    lemma_alike_sizes(disk, other, opts, sizes);
    if opts.follow_symlinks {
        lemma_alike_kinds(disk, other, opts);
    }
    let one = law_walk_of_one_thread_is_a_way_to_take_turns(other, opts, root, fuel);
    let a = pool::run(other, opts, root, one);
    let b = pool::run(other, opts, root, turns);
    lemma_explored(other, opts, root, one);
    lemma_explored(other, opts, root, turns);
    census::law_walk_judges_what_it_meets(other, opts, root, 0, Set::empty(), fuel);
    pool::law_threads_count_what_is_judged(other, opts, root, turns);
    census::lemma_entries_from_disk(other, opts, a.taken);
    census::lemma_entries_from_disk(other, opts, b.taken);
    assert forall|key: InodeKey| #[trigger]
        walker::claimed(a.taken, opts, key) <==> walker::claimed(b.taken, opts, key) by {
        if walker::claimed(b.taken, opts, key) {
            lemma_same_claims(disk, other, opts, root, a, b, key);
        }
        if walker::claimed(a.taken, opts, key) {
            lemma_same_claims(disk, other, opts, root, b, a, key);
        }
    }
    walker::law_order_of_entries_does_not_matter(a.taken, b.taken, opts, Set::empty(), sizes);
}

} // verus!
