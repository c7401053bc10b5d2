//! Walks of many threads on a given disk.
//!
//! Every directory has a scan of its own, and the threads take turns in any
//! order: a turn takes the next entry of some scan. A directory that a scan puts
//! aside can be scanned from then on.

use crate::census::Disk;
use crate::scan::ScanState;
use crate::stat::InodeKey;
use crate::walker::{Found, Verdict, WalkOptions};
use crate::{aggregator, census, scan, walker};
use vstd::multiset::*;
use vstd::prelude::*;

verus! {

/// A directory that is being scanned.
pub struct Job {
    pub scan: ScanState,
    /// The entries that have not been taken.
    pub todo: Seq<Seq<u8>>,
    /// The number of the job that put the directory aside.
    pub above: int,
}

/// The state of a walk of many threads.
pub struct Pool {
    pub jobs: Seq<Job>,
    /// The inodes noted.
    pub seen: Set<InodeKey>,
    /// The entries taken, in the order in which they were.
    pub taken: Seq<Found>,
}

/// The entries that `disk` lists in a directory; none where it cannot be read.
pub open spec fn listing(disk: Disk, path: Seq<u8>) -> Seq<Seq<u8>> {
    match (disk.list)(path) {
        Some(entries) => entries,
        None => seq![],
    }
}

/// The job for a directory, as it starts. One that cannot be read has no entries.
pub open spec fn opened(disk: Disk, path: Seq<u8>, depth: nat, above: int) -> Job {
    Job {
        scan: ScanState { path, depth, done: seq![], subdirs: seq![], total: 0, count: 0 },
        todo: listing(disk, path),
        above,
    }
}

/// The state in which a walk starts at `root`.
pub open spec fn started(disk: Disk, root: Seq<u8>) -> Pool {
    Pool { jobs: seq![opened(disk, root, 0, 0)], seen: Set::empty(), taken: seq![] }
}

/// What `disk` shows of the next entry of a job.
pub open spec fn next_found(disk: Disk, job: Job) -> Found {
    let path = job.todo[0];
    Found { path, st: (disk.stat)(path)->0, target: (disk.target)(path), depth: job.scan.depth }
}

/// The job without its next entry.
pub open spec fn passed(job: Job) -> Job {
    Job { todo: job.todo.drop_first(), ..job }
}

/// The state after a turn of the job with the number `id`. A job that has no
/// entries left does nothing.
pub open spec fn turn(disk: Disk, opts: WalkOptions, pool: Pool, id: int) -> Pool {
    if !(0 <= id < pool.jobs.len()) || pool.jobs[id].todo.len() == 0 {
        pool
    } else {
        let job = pool.jobs[id];
        let path = job.todo[0];
        if (disk.stat)(path) is None {
            Pool { jobs: pool.jobs.update(id, passed(job)), ..pool }
        } else {
            let f = next_found(disk, job);
            let (verdict, seen) = walker::judged(path, f.st, f.target, opts, f.depth, pool.seen);
            let jobs = pool.jobs.update(
                id,
                Job { scan: scan::noted(job.scan, path, verdict).1, ..passed(job) },
            );
            Pool {
                jobs: if verdict is Descend {
                    jobs.push(opened(disk, path, job.scan.depth + 1, id))
                } else {
                    jobs
                },
                seen,
                taken: pool.taken.push(f),
            }
        }
    }
}

/// The state after these turns.
pub open spec fn run(disk: Disk, opts: WalkOptions, root: Seq<u8>, turns: Seq<int>) -> Pool
    decreases turns.len(),
{
    if turns.len() == 0 {
        started(disk, root)
    } else {
        turn(disk, opts, run(disk, opts, root, turns.drop_last()), turns.last())
    }
}

/// No job has entries left.
pub open spec fn finished(pool: Pool) -> bool {
    forall|i: int| 0 <= i < pool.jobs.len() ==> (#[trigger] pool.jobs[i]).todo.len() == 0
}

/// The jobs once the last one has been closed into the one that put it aside.
pub open spec fn closed_into(jobs: Seq<Job>) -> Seq<Job> {
    let last = jobs.last();
    let rest = jobs.drop_last();
    Seq::new(
        rest.len(),
        |i: int|
            if i == last.above {
                Job {
                    scan: ScanState {
                        total: rest[i].scan.total + last.scan.total,
                        count: rest[i].scan.count + last.scan.count,
                        ..rest[i].scan
                    },
                    ..rest[i]
                }
            } else {
                rest[i]
            },
    )
}

/// The bytes and the number of files of the root, once every directory has been
/// closed into the one above it.
pub open spec fn closed_up(jobs: Seq<Job>) -> (nat, nat)
    decreases jobs.len(),
{
    if jobs.len() <= 1 {
        (jobs[0].scan.total, jobs[0].scan.count)
    } else {
        closed_up(closed_into(jobs))
    }
}

/// The bytes that all jobs have counted.
spec fn bytes_in(jobs: Seq<Job>) -> nat
    decreases jobs.len(),
{
    if jobs.len() == 0 {
        0
    } else {
        bytes_in(jobs.drop_last()) + jobs.last().scan.total
    }
}

/// The files that all jobs have counted.
spec fn files_in(jobs: Seq<Job>) -> nat
    decreases jobs.len(),
{
    if jobs.len() == 0 {
        0
    } else {
        files_in(jobs.drop_last()) + jobs.last().scan.count
    }
}

proof fn lemma_one_job_changes(jobs: Seq<Job>, id: int, job: Job)
    requires
        0 <= id < jobs.len(),
    ensures
        bytes_in(jobs.update(id, job)) + jobs[id].scan.total == bytes_in(jobs) + job.scan.total,
        files_in(jobs.update(id, job)) + jobs[id].scan.count == files_in(jobs) + job.scan.count,
        jobs[id].scan.total <= bytes_in(jobs),
        jobs[id].scan.count <= files_in(jobs),
    decreases jobs.len(),
{
    let changed = jobs.update(id, job);
    if id == jobs.len() - 1 {
        assert(changed.drop_last() =~= jobs.drop_last());
    } else {
        lemma_one_job_changes(jobs.drop_last(), id, job);
        assert(changed.drop_last() =~= jobs.drop_last().update(id, job));
    }
}

proof fn lemma_one_job_more(jobs: Seq<Job>, job: Job)
    ensures
        bytes_in(jobs.push(job)) == bytes_in(jobs) + job.scan.total,
        files_in(jobs.push(job)) == files_in(jobs) + job.scan.count,
{
    assert(jobs.push(job).drop_last() =~= jobs);
}

/// Every directory but the root was put aside by an earlier job.
spec fn nested(jobs: Seq<Job>) -> bool {
    &&& jobs.len() > 0
    &&& forall|i: int| 0 < i < jobs.len() ==> 0 <= (#[trigger] jobs[i]).above < i
}

proof fn lemma_closed_up(jobs: Seq<Job>)
    requires
        nested(jobs),
    ensures
        closed_up(jobs) == (bytes_in(jobs), files_in(jobs)),
    decreases jobs.len(),
{
    if jobs.len() == 1 {
        assert(jobs.drop_last() =~= seq![]);
        assert(bytes_in(jobs.drop_last()) == 0 && files_in(jobs.drop_last()) == 0);
    } else {
        let last = jobs.last();
        assert(jobs[jobs.len() - 1] == last);
        let rest = jobs.drop_last();
        let next = closed_into(jobs);
        lemma_one_job_changes(rest, last.above, next[last.above]);
        assert(next =~= rest.update(last.above, next[last.above]));
        assert forall|i: int| 0 < i < next.len() implies 0 <= (#[trigger] next[i]).above < i by {
            assert(next[i].above == jobs[i].above);
        }
        lemma_closed_up(next);
    }
}

/// However the threads take turns, the inodes noted are those that come of
/// judging the entries taken in their order; and so are the files and bytes that
/// the root has once all is closed up, as long as they fit in 64 bits.
pub proof fn law_threads_count_what_is_judged(
    disk: Disk,
    opts: WalkOptions,
    root: Seq<u8>,
    turns: Seq<int>,
)
    ensures
        ({
            let pool = run(disk, opts, root, turns);
            let (counted, noted) = walker::judged_all(pool.taken, opts, Set::empty());
            &&& pool.seen == noted
            &&& census::from_disk(disk, pool.taken)
            &&& aggregator::total_bytes(counted) <= u64::MAX && counted.len() <= u64::MAX
                ==> closed_up(pool.jobs) == (aggregator::total_bytes(counted), counted.len())
        }),
{
    lemma_jobs_count_what_is_judged(disk, opts, root, turns);
    lemma_closed_up(run(disk, opts, root, turns).jobs);
}

/// However the threads take turns, they count every inode among the files to be
/// counted that they take exactly once, whatever the filter, and through links or
/// not; and the bytes are the sizes of those inodes.
pub proof fn law_threads_count_every_inode_once(
    disk: Disk,
    opts: WalkOptions,
    root: Seq<u8>,
    turns: Seq<int>,
    sizes: spec_fn(InodeKey) -> u64,
)
    requires
        opts.follow_symlinks ==> census::inodes_of_one_kind(disk),
        census::one_size_each(disk, opts, sizes),
    ensures
        ({
            let pool = run(disk, opts, root, turns);
            let keys = walker::counted_keys(pool.taken, opts, Set::empty());
            &&& keys.no_duplicates()
            &&& forall|key: InodeKey| #[trigger]
                keys.contains(key) <==> walker::claimed(pool.taken, opts, key)
            &&& walker::sum_of(keys, sizes) <= u64::MAX && keys.len() <= u64::MAX ==> closed_up(
                pool.jobs,
            ) == (walker::sum_of(keys, sizes), keys.len())
        }),
{
    let taken = run(disk, opts, root, turns).taken;
    law_threads_count_what_is_judged(disk, opts, root, turns);
    census::lemma_entries_from_disk(disk, opts, taken);
    walker::law_every_new_inode_is_counted_once(taken, opts, Set::empty());
    walker::law_bytes_are_those_of_the_inodes(taken, opts, Set::empty(), sizes);
}

proof fn lemma_jobs_count_what_is_judged(
    disk: Disk,
    opts: WalkOptions,
    root: Seq<u8>,
    turns: Seq<int>,
)
    ensures
        ({
            let pool = run(disk, opts, root, turns);
            let (counted, noted) = walker::judged_all(pool.taken, opts, Set::empty());
            &&& nested(pool.jobs)
            &&& pool.seen == noted
            &&& census::from_disk(disk, pool.taken)
            &&& aggregator::total_bytes(counted) <= u64::MAX && counted.len() <= u64::MAX ==> {
                &&& bytes_in(pool.jobs) == aggregator::total_bytes(counted)
                &&& files_in(pool.jobs) == counted.len()
            }
        }),
    decreases turns.len(),
{
    let pool = run(disk, opts, root, turns);
    if turns.len() == 0 {
        assert(pool.jobs.drop_last() =~= seq![]);
        assert(bytes_in(pool.jobs.drop_last()) == 0 && files_in(pool.jobs.drop_last()) == 0);
    } else {
        let before = run(disk, opts, root, turns.drop_last());
        let id = turns.last();
        lemma_jobs_count_what_is_judged(disk, opts, root, turns.drop_last());
        if 0 <= id < before.jobs.len() && before.jobs[id].todo.len() > 0 {
            let job = before.jobs[id];
            let path = job.todo[0];
            if (disk.stat)(path) is None {
                lemma_one_job_changes(before.jobs, id, passed(job));
            } else {
                let f = next_found(disk, job);
                let (verdict, _) = walker::judged(
                    path,
                    f.st,
                    f.target,
                    opts,
                    f.depth,
                    before.seen,
                );
                let next = Job { scan: scan::noted(job.scan, path, verdict).1, ..passed(job) };
                let jobs = before.jobs.update(id, next);
                let (counted, _) = walker::judged_all(pool.taken, opts, Set::empty());
                let (earlier, _) = walker::judged_all(before.taken, opts, Set::empty());
                assert(pool.taken.drop_last() =~= before.taken);
                lemma_one_job_changes(before.jobs, id, next);
                lemma_one_job_more(jobs, opened(disk, path, job.scan.depth + 1, id));
                if verdict is Count {
                    assert(counted.drop_last() =~= earlier);
                }
            }
        }
    }
}

proof fn lemma_noted_inodes_do_not_matter_in_dir(
    disk: Disk,
    opts: WalkOptions,
    path: Seq<u8>,
    depth: nat,
    a: Set<InodeKey>,
    b: Set<InodeKey>,
    fuel: nat,
)
    requires
        !opts.follow_symlinks,
    ensures
        census::walk_dir(disk, opts, path, depth, a, fuel) is Some == census::walk_dir(
            disk,
            opts,
            path,
            depth,
            b,
            fuel,
        ) is Some,
        census::met_in_dir(disk, opts, path, depth, a, fuel) == census::met_in_dir(
            disk,
            opts,
            path,
            depth,
            b,
            fuel,
        ),
        census::questions_in_dir(disk, opts, path, depth, a, fuel) == census::questions_in_dir(
            disk,
            opts,
            path,
            depth,
            b,
            fuel,
        ),
    decreases fuel, 0nat, 0nat,
{
    if fuel > 0 {
        if let Some(entries) = (disk.list)(path) {
            lemma_noted_inodes_do_not_matter(disk, opts, entries, depth, a, b, (fuel - 1) as nat);
        }
    }
}

proof fn lemma_noted_inodes_do_not_matter(
    disk: Disk,
    opts: WalkOptions,
    entries: Seq<Seq<u8>>,
    depth: nat,
    a: Set<InodeKey>,
    b: Set<InodeKey>,
    fuel: nat,
)
    requires
        !opts.follow_symlinks,
    ensures
        census::walk_entries(disk, opts, entries, depth, a, fuel) is Some == census::walk_entries(
            disk,
            opts,
            entries,
            depth,
            b,
            fuel,
        ) is Some,
        census::met_in_entries(disk, opts, entries, depth, a, fuel) == census::met_in_entries(
            disk,
            opts,
            entries,
            depth,
            b,
            fuel,
        ),
        census::questions_in_entries(disk, opts, entries, depth, a, fuel)
            == census::questions_in_entries(disk, opts, entries, depth, b, fuel),
    decreases fuel, 1nat, entries.len(),
{
    if entries.len() > 0 {
        let path = entries[0];
        let rest = entries.drop_first();
        let (verdict_a, met_a) = census::verdict_on(disk, opts, path, depth, a);
        let (verdict_b, met_b) = census::verdict_on(disk, opts, path, depth, b);
        assert(verdict_a is Descend == verdict_b is Descend);
        if verdict_a is Descend {
            lemma_noted_inodes_do_not_matter_in_dir(
                disk,
                opts,
                path,
                depth + 1,
                met_a,
                met_b,
                fuel,
            );
            let dir_a = census::walk_dir(disk, opts, path, depth + 1, met_a, fuel);
            let dir_b = census::walk_dir(disk, opts, path, depth + 1, met_b, fuel);
            if dir_a is Some {
                lemma_noted_inodes_do_not_matter(
                    disk,
                    opts,
                    rest,
                    depth,
                    (dir_a->0).1,
                    (dir_b->0).1,
                    fuel,
                );
            }
        } else {
            lemma_noted_inodes_do_not_matter(disk, opts, rest, depth, met_a, met_b, fuel);
        }
    }
}

proof fn lemma_met_in_dir_more_fuel(
    disk: Disk,
    opts: WalkOptions,
    path: Seq<u8>,
    depth: nat,
    seen: Set<InodeKey>,
    fuel: nat,
)
    requires
        census::walk_dir(disk, opts, path, depth, seen, fuel) is Some,
    ensures
        census::met_in_dir(disk, opts, path, depth, seen, fuel + 1) == census::met_in_dir(
            disk,
            opts,
            path,
            depth,
            seen,
            fuel,
        ),
    decreases fuel, 0nat, 0nat,
{
    if let Some(entries) = (disk.list)(path) {
        lemma_met_in_entries_more_fuel(disk, opts, entries, depth, seen, (fuel - 1) as nat);
    }
}

proof fn lemma_met_in_entries_more_fuel(
    disk: Disk,
    opts: WalkOptions,
    entries: Seq<Seq<u8>>,
    depth: nat,
    seen: Set<InodeKey>,
    fuel: nat,
)
    requires
        census::walk_entries(disk, opts, entries, depth, seen, fuel) is Some,
    ensures
        census::walk_entries(disk, opts, entries, depth, seen, fuel + 1) is Some,
        census::met_in_entries(disk, opts, entries, depth, seen, fuel + 1)
            == census::met_in_entries(disk, opts, entries, depth, seen, fuel),
    decreases fuel, 1nat, entries.len(),
{
    census::lemma_entries_more_fuel(disk, opts, entries, depth, seen, fuel);
    if entries.len() > 0 {
        let path = entries[0];
        let (verdict, met) = census::verdict_on(disk, opts, path, depth, seen);
        let rest = entries.drop_first();
        match verdict {
            Verdict::Descend => {
                census::lemma_dir_more_fuel(disk, opts, path, depth + 1, met, fuel);
                lemma_met_in_dir_more_fuel(disk, opts, path, depth + 1, met, fuel);
                let (_, after) = census::walk_dir(disk, opts, path, depth + 1, met, fuel)->0;
                lemma_met_in_entries_more_fuel(disk, opts, rest, depth, after, fuel);
            },
            _ => {
                lemma_met_in_entries_more_fuel(disk, opts, rest, depth, met, fuel);
            },
        }
    }
}

/// The entries that are met among those a job has left, and below them.
spec fn ahead(disk: Disk, opts: WalkOptions, job: Job, fuel: nat) -> Seq<Found> {
    census::met_in_entries(disk, opts, job.todo, job.scan.depth, Set::empty(), fuel)
}

/// The entries that all jobs have ahead.
spec fn all_ahead(disk: Disk, opts: WalkOptions, jobs: Seq<Job>, fuel: nat) -> Multiset<Found>
    decreases jobs.len(),
{
    if jobs.len() == 0 {
        Multiset::empty()
    } else {
        all_ahead(disk, opts, jobs.drop_last(), fuel).add(
            ahead(disk, opts, jobs.last(), fuel).to_multiset(),
        )
    }
}

/// No job has more levels of directories ahead than `fuel`.
spec fn fuelled(disk: Disk, opts: WalkOptions, jobs: Seq<Job>, fuel: nat) -> bool {
    forall|i: int|
        0 <= i < jobs.len() ==> census::walk_entries(
            disk,
            opts,
            (#[trigger] jobs[i]).todo,
            jobs[i].scan.depth,
            Set::empty(),
            fuel,
        ) is Some
}

proof fn lemma_one_job_ahead_changes(
    disk: Disk,
    opts: WalkOptions,
    jobs: Seq<Job>,
    id: int,
    job: Job,
    fuel: nat,
)
    requires
        0 <= id < jobs.len(),
    ensures
        all_ahead(disk, opts, jobs.update(id, job), fuel).add(
            ahead(disk, opts, jobs[id], fuel).to_multiset(),
        ) == all_ahead(disk, opts, jobs, fuel).add(ahead(disk, opts, job, fuel).to_multiset()),
    decreases jobs.len(),
{
    let changed = jobs.update(id, job);
    let x = ahead(disk, opts, jobs[id], fuel).to_multiset();
    let y = ahead(disk, opts, job, fuel).to_multiset();
    if id == jobs.len() - 1 {
        assert(changed.drop_last() =~= jobs.drop_last());
        let rest = all_ahead(disk, opts, jobs.drop_last(), fuel);
        assert(rest.add(y).add(x) =~= rest.add(x).add(y));
    } else {
        lemma_one_job_ahead_changes(disk, opts, jobs.drop_last(), id, job, fuel);
        assert(changed.drop_last() =~= jobs.drop_last().update(id, job));
        let a = all_ahead(disk, opts, changed.drop_last(), fuel);
        let b = all_ahead(disk, opts, jobs.drop_last(), fuel);
        let z = ahead(disk, opts, jobs.last(), fuel).to_multiset();
        assert(a.add(x) == b.add(y));
        assert(a.add(z).add(x) =~= a.add(x).add(z));
        assert(b.add(z).add(y) =~= b.add(y).add(z));
    }
}

proof fn lemma_opened_job_ahead(
    disk: Disk,
    opts: WalkOptions,
    path: Seq<u8>,
    depth: nat,
    above: int,
    fuel: nat,
)
    requires
        census::walk_dir(disk, opts, path, depth, Set::empty(), fuel) is Some,
    ensures
        ({
            let job = opened(disk, path, depth, above);
            &&& ahead(disk, opts, job, fuel) == census::met_in_dir(
                disk,
                opts,
                path,
                depth,
                Set::empty(),
                fuel,
            )
            &&& census::walk_entries(disk, opts, job.todo, depth, Set::empty(), fuel) is Some
        }),
{
    if let Some(entries) = (disk.list)(path) {
        lemma_met_in_entries_more_fuel(
            disk,
            opts,
            entries,
            depth,
            Set::empty(),
            (fuel - 1) as nat,
        );
    }
}

/// Without followed links, threads take exactly the entries that a walk of one
/// thread meets, each as often, whatever turns they take.
pub proof fn law_threads_take_what_a_walk_meets(
    disk: Disk,
    opts: WalkOptions,
    root: Seq<u8>,
    fuel: nat,
    turns: Seq<int>,
)
    requires
        !opts.follow_symlinks,
        census::walk_dir(disk, opts, root, 0, Set::empty(), fuel) is Some,
        finished(run(disk, opts, root, turns)),
    ensures
        run(disk, opts, root, turns).taken.to_multiset() == census::met_in_dir(
            disk,
            opts,
            root,
            0,
            Set::empty(),
            fuel,
        ).to_multiset(),
{
    let pool = run(disk, opts, root, turns);
    lemma_taken_and_ahead(disk, opts, root, fuel, turns);
    lemma_nothing_ahead(disk, opts, pool.jobs, fuel);
    assert(pool.taken.to_multiset().add(Multiset::empty()) =~= pool.taken.to_multiset());
}

proof fn lemma_nothing_ahead(disk: Disk, opts: WalkOptions, jobs: Seq<Job>, fuel: nat)
    requires
        forall|i: int| 0 <= i < jobs.len() ==> (#[trigger] jobs[i]).todo.len() == 0,
    ensures
        all_ahead(disk, opts, jobs, fuel) == Multiset::<Found>::empty(),
    decreases jobs.len(),
{
    if jobs.len() > 0 {
        assert(jobs[jobs.len() - 1].todo.len() == 0);
        lemma_nothing_ahead(disk, opts, jobs.drop_last(), fuel);
        let last = ahead(disk, opts, jobs.last(), fuel);
        assert(last =~= seq![]);
        last.to_multiset_ensures();
        assert(last.to_multiset() =~= Multiset::empty());
        assert(all_ahead(disk, opts, jobs, fuel) =~= Multiset::empty());
    }
}

proof fn lemma_taken_and_ahead(
    disk: Disk,
    opts: WalkOptions,
    root: Seq<u8>,
    fuel: nat,
    turns: Seq<int>,
)
    requires
        !opts.follow_symlinks,
        census::walk_dir(disk, opts, root, 0, Set::empty(), fuel) is Some,
    ensures
        ({
            let pool = run(disk, opts, root, turns);
            &&& fuelled(disk, opts, pool.jobs, fuel)
            &&& pool.taken.to_multiset().add(all_ahead(disk, opts, pool.jobs, fuel))
                == census::met_in_dir(disk, opts, root, 0, Set::empty(), fuel).to_multiset()
        }),
    decreases turns.len(),
{
    let pool = run(disk, opts, root, turns);
    if turns.len() == 0 {
        let job = opened(disk, root, 0, 0);
        lemma_opened_job_ahead(disk, opts, root, 0, 0, fuel);
        assert(pool.jobs.drop_last() =~= seq![]);
        assert(all_ahead(disk, opts, pool.jobs.drop_last(), fuel) == Multiset::<Found>::empty());
        pool.taken.to_multiset_ensures();
        let all = ahead(disk, opts, job, fuel).to_multiset();
        assert(pool.taken.to_multiset() =~= Multiset::empty());
        assert(Multiset::<Found>::empty().add(Multiset::empty().add(all)) =~= all);
    } else {
        lemma_taken_and_ahead(disk, opts, root, fuel, turns.drop_last());
        let before = run(disk, opts, root, turns.drop_last());
        let id = turns.last();
        if 0 <= id < before.jobs.len() && before.jobs[id].todo.len() > 0 {
            lemma_turn_keeps_entries(disk, opts, before, id, fuel);
        }
    }
}

proof fn lemma_turn_keeps_entries(disk: Disk, opts: WalkOptions, pool: Pool, id: int, fuel: nat)
    requires
        !opts.follow_symlinks,
        0 <= id < pool.jobs.len(),
        pool.jobs[id].todo.len() > 0,
        fuelled(disk, opts, pool.jobs, fuel),
    ensures
        fuelled(disk, opts, turn(disk, opts, pool, id).jobs, fuel),
        turn(disk, opts, pool, id).taken.to_multiset().add(
            all_ahead(disk, opts, turn(disk, opts, pool, id).jobs, fuel),
        ) == pool.taken.to_multiset().add(all_ahead(disk, opts, pool.jobs, fuel)),
{
    let next = turn(disk, opts, pool, id);
    let job = pool.jobs[id];
    let depth = job.scan.depth;
    let path = job.todo[0];
    let rest = job.todo.drop_first();
    let (verdict, met) = census::verdict_on(disk, opts, path, depth, Set::empty());
    let all = all_ahead(disk, opts, pool.jobs, fuel);
    let taken = pool.taken.to_multiset();
    let here = ahead(disk, opts, job, fuel);
    assert(census::walk_entries(disk, opts, job.todo, depth, Set::empty(), fuel) is Some);
    if (disk.stat)(path) is None {
        lemma_one_job_ahead_changes(disk, opts, pool.jobs, id, passed(job), fuel);
        assert(here =~= ahead(disk, opts, passed(job), fuel));
        let left = all_ahead(disk, opts, next.jobs, fuel);
        assert(left.add(here.to_multiset()) == all.add(here.to_multiset()));
        assert(left =~= all) by {
            assert forall|f: Found| left.count(f) == all.count(f) by {
                assert(left.add(here.to_multiset()).count(f) == all.add(here.to_multiset()).count(
                    f,
                ));
            }
        }
    } else {
        let f = next_found(disk, job);
        let (now, _) = walker::judged(path, f.st, f.target, opts, f.depth, pool.seen);
        assert(now is Descend == verdict is Descend);
        let after = Job { scan: scan::noted(job.scan, path, now).1, ..passed(job) };
        let jobs = pool.jobs.update(id, after);
        let later = ahead(disk, opts, after, fuel);
        let left = all_ahead(disk, opts, jobs, fuel);
        lemma_one_job_ahead_changes(disk, opts, pool.jobs, id, after, fuel);
        pool.taken.to_multiset_ensures();
        assert(next.taken.to_multiset() =~= taken.insert(f));
        assert(census::shown(disk, path, depth) =~= seq![f]);
        let one = seq![f];
        assert(one =~= Seq::<Found>::empty().push(f));
        Seq::<Found>::empty().to_multiset_ensures();
        assert(one.to_multiset() =~= Multiset::empty().insert(f));
        if verdict is Descend {
            let new = opened(disk, path, depth + 1, id);
            let below = census::met_in_dir(disk, opts, path, depth + 1, Set::empty(), fuel);
            let end = (census::walk_dir(disk, opts, path, depth + 1, met, fuel)->0).1;
            lemma_noted_inodes_do_not_matter_in_dir(
                disk,
                opts,
                path,
                depth + 1,
                met,
                Set::empty(),
                fuel,
            );
            lemma_noted_inodes_do_not_matter(disk, opts, rest, depth, end, Set::empty(), fuel);
            lemma_opened_job_ahead(disk, opts, path, depth + 1, id, fuel);
            assert(here =~= one + (below + later));
            vstd::seq_lib::lemma_multiset_commutative(one, below + later);
            vstd::seq_lib::lemma_multiset_commutative(below, later);
            assert(next.jobs.drop_last() =~= jobs);
            let whole = all_ahead(disk, opts, next.jobs, fuel);
            assert(whole == left.add(below.to_multiset()));
            assert(next.taken.to_multiset().add(whole) =~= taken.add(all)) by {
                assert forall|g: Found| next.taken.to_multiset().add(whole).count(g) == taken.add(
                    all,
                ).count(g) by {
                    assert(left.add(here.to_multiset()).count(g) == all.add(
                        later.to_multiset(),
                    ).count(g));
                }
            }
            assert forall|i: int| 0 <= i < next.jobs.len() implies census::walk_entries(
                disk,
                opts,
                (#[trigger] next.jobs[i]).todo,
                next.jobs[i].scan.depth,
                Set::empty(),
                fuel,
            ) is Some by {
                if i < pool.jobs.len() && i != id {
                    assert(next.jobs[i] == pool.jobs[i]);
                }
            }
        } else {
            lemma_noted_inodes_do_not_matter(disk, opts, rest, depth, met, Set::empty(), fuel);
            assert(here =~= one + later);
            vstd::seq_lib::lemma_multiset_commutative(one, later);
            assert(next.taken.to_multiset().add(left) =~= taken.add(all)) by {
                assert forall|g: Found| next.taken.to_multiset().add(left).count(g) == taken.add(
                    all,
                ).count(g) by {
                    assert(left.add(here.to_multiset()).count(g) == all.add(
                        later.to_multiset(),
                    ).count(g));
                }
            }
        }
    }
}

/// How many questions a job has ahead, for its entries and all below them.
pub open spec fn job_questions(disk: Disk, opts: WalkOptions, job: Job, fuel: nat) -> nat {
    census::questions_in_entries(disk, opts, job.todo, job.scan.depth, Set::empty(), fuel)
}

/// How many questions all jobs have ahead.
pub open spec fn questions_left(disk: Disk, opts: WalkOptions, jobs: Seq<Job>, fuel: nat) -> nat
    decreases jobs.len(),
{
    if jobs.len() == 0 {
        0
    } else {
        questions_left(disk, opts, jobs.drop_last(), fuel) + job_questions(
            disk,
            opts,
            jobs.last(),
            fuel,
        )
    }
}

proof fn lemma_one_job_asks_otherwise(
    disk: Disk,
    opts: WalkOptions,
    jobs: Seq<Job>,
    id: int,
    job: Job,
    fuel: nat,
)
    requires
        0 <= id < jobs.len(),
    ensures
        questions_left(disk, opts, jobs.update(id, job), fuel) + job_questions(
            disk,
            opts,
            jobs[id],
            fuel,
        ) == questions_left(disk, opts, jobs, fuel) + job_questions(disk, opts, job, fuel),
    decreases jobs.len(),
{
    let changed = jobs.update(id, job);
    if id == jobs.len() - 1 {
        assert(changed.drop_last() =~= jobs.drop_last());
    } else {
        lemma_one_job_asks_otherwise(disk, opts, jobs.drop_last(), id, job, fuel);
        assert(changed.drop_last() =~= jobs.drop_last().update(id, job));
    }
}

/// Without followed links, every turn that takes an entry leaves fewer questions.
pub proof fn law_turns_use_up_questions(
    disk: Disk,
    opts: WalkOptions,
    root: Seq<u8>,
    fuel: nat,
    turns: Seq<int>,
    id: int,
)
    requires
        !opts.follow_symlinks,
        census::walk_dir(disk, opts, root, 0, Set::empty(), fuel) is Some,
        0 <= id < run(disk, opts, root, turns).jobs.len(),
        run(disk, opts, root, turns).jobs[id].todo.len() > 0,
    ensures
        questions_left(disk, opts, run(disk, opts, root, turns.push(id)).jobs, fuel)
            < questions_left(disk, opts, run(disk, opts, root, turns).jobs, fuel),
{
    let pool = run(disk, opts, root, turns);
    assert(turns.push(id).drop_last() =~= turns);
    let next = turn(disk, opts, pool, id);
    assert(run(disk, opts, root, turns.push(id)) == next);
    lemma_taken_and_ahead(disk, opts, root, fuel, turns);
    let job = pool.jobs[id];
    let depth = job.scan.depth;
    let path = job.todo[0];
    let rest = job.todo.drop_first();
    let (verdict, met) = census::verdict_on(disk, opts, path, depth, Set::empty());
    if (disk.stat)(path) is None {
        lemma_one_job_asks_otherwise(disk, opts, pool.jobs, id, passed(job), fuel);
    } else {
        let f = next_found(disk, job);
        let (now, _) = walker::judged(path, f.st, f.target, opts, f.depth, pool.seen);
        assert(now is Descend == verdict is Descend);
        let after = Job { scan: scan::noted(job.scan, path, now).1, ..passed(job) };
        let jobs = pool.jobs.update(id, after);
        lemma_one_job_asks_otherwise(disk, opts, pool.jobs, id, after, fuel);
        if verdict is Descend {
            let end = (census::walk_dir(disk, opts, path, depth + 1, met, fuel)->0).1;
            lemma_noted_inodes_do_not_matter_in_dir(
                disk,
                opts,
                path,
                depth + 1,
                met,
                Set::empty(),
                fuel,
            );
            lemma_noted_inodes_do_not_matter(disk, opts, rest, depth, end, Set::empty(), fuel);
            if let Some(entries) = (disk.list)(path) {
                census::lemma_questions_in_entries_more_fuel(
                    disk,
                    opts,
                    entries,
                    depth + 1,
                    Set::empty(),
                    (fuel - 1) as nat,
                );
            }
            let new = opened(disk, path, depth + 1, id);
            let asked = census::questions_in_dir(disk, opts, path, depth + 1, Set::empty(), fuel);
            assert(job_questions(disk, opts, new, fuel) + 1 == asked);
            assert(job_questions(disk, opts, job, fuel) == 1 + asked + job_questions(
                disk,
                opts,
                after,
                fuel,
            ));
            assert(next.jobs.drop_last() =~= jobs);
            assert(next.jobs.last() == new);
        } else {
            lemma_noted_inodes_do_not_matter(disk, opts, rest, depth, met, Set::empty(), fuel);
        }
    }
}

/// Without followed links, threads come to an end: whatever turns they have
/// taken, these turns finish the walk.
pub proof fn law_threads_come_to_an_end(
    disk: Disk,
    opts: WalkOptions,
    root: Seq<u8>,
    fuel: nat,
    turns: Seq<int>,
) -> (more: Seq<int>)
    requires
        !opts.follow_symlinks,
        census::walk_dir(disk, opts, root, 0, Set::empty(), fuel) is Some,
    ensures
        finished(run(disk, opts, root, turns + more)),
    decreases questions_left(disk, opts, run(disk, opts, root, turns).jobs, fuel),
{
    let pool = run(disk, opts, root, turns);
    if finished(pool) {
        assert(turns + seq![] =~= turns);
        seq![]
    } else {
        let id = choose|i: int|
            0 <= i < pool.jobs.len() && (#[trigger] pool.jobs[i]).todo.len() != 0;
        law_turns_use_up_questions(disk, opts, root, fuel, turns, id);
        let rest = law_threads_come_to_an_end(disk, opts, root, fuel, turns.push(id));
        assert(turns + (seq![id] + rest) =~= turns.push(id) + rest);
        seq![id] + rest
    }
}

/// The entries that a job has left are the last ones of its directory.
pub open spec fn listed(disk: Disk, job: Job) -> bool {
    let all = listing(disk, job.scan.path);
    job.todo.len() <= all.len() && job.todo == all.skip(all.len() - job.todo.len())
}

pub open spec fn all_listed(disk: Disk, jobs: Seq<Job>) -> bool {
    forall|i: int| 0 <= i < jobs.len() ==> listed(disk, #[trigger] jobs[i])
}

proof fn lemma_passed_is_listed(disk: Disk, job: Job)
    requires
        listed(disk, job),
        job.todo.len() > 0,
    ensures
        listed(disk, passed(job)),
{
    let all = listing(disk, job.scan.path);
    assert(job.todo.drop_first() =~= all.skip(all.len() - (job.todo.len() - 1)));
}

pub proof fn lemma_jobs_are_listed(
    disk: Disk,
    opts: WalkOptions,
    root: Seq<u8>,
    turns: Seq<int>,
)
    ensures
        all_listed(disk, run(disk, opts, root, turns).jobs),
    decreases turns.len(),
{
    let pool = run(disk, opts, root, turns);
    if turns.len() == 0 {
        lemma_opened_is_listed(disk, root, 0, 0);
    } else {
        let before = run(disk, opts, root, turns.drop_last());
        let id = turns.last();
        lemma_jobs_are_listed(disk, opts, root, turns.drop_last());
        if 0 <= id < before.jobs.len() && before.jobs[id].todo.len() > 0 {
            let job = before.jobs[id];
            let path = job.todo[0];
            lemma_passed_is_listed(disk, job);
            lemma_opened_is_listed(disk, path, job.scan.depth + 1, id);
            assert forall|i: int| 0 <= i < pool.jobs.len() implies listed(
                disk,
                #[trigger] pool.jobs[i],
            ) by {
                if i < before.jobs.len() {
                    assert(listed(disk, before.jobs[i]));
                }
            }
        }
    }
}

proof fn lemma_opened_is_listed(disk: Disk, path: Seq<u8>, depth: nat, above: int)
    ensures
        listed(disk, opened(disk, path, depth, above)),
{
    let all = listing(disk, path);
    assert(all.skip(0) =~= all);
}

/// With a depth limit, threads scan no directory below it and take no entry of
/// one, through links or not.
pub proof fn law_threads_keep_the_depth_limit(
    disk: Disk,
    opts: WalkOptions,
    root: Seq<u8>,
    turns: Seq<int>,
)
    ensures
        ({
            let pool = run(disk, opts, root, turns);
            opts.max_depth matches Some(m) ==> {
                &&& forall|i: int|
                    0 <= i < pool.jobs.len() ==> (#[trigger] pool.jobs[i]).scan.depth <= m
                &&& forall|i: int|
                    0 <= i < pool.taken.len() ==> (#[trigger] pool.taken[i]).depth <= m
            }
        }),
    decreases turns.len(),
{
    if turns.len() > 0 {
        let pool = run(disk, opts, root, turns);
        let before = run(disk, opts, root, turns.drop_last());
        law_threads_keep_the_depth_limit(disk, opts, root, turns.drop_last());
        if let Some(m) = opts.max_depth {
            assert forall|i: int| 0 <= i < pool.jobs.len() implies (#[trigger] pool.jobs[i]).scan.depth
                <= m by {
                if i < before.jobs.len() {
                    assert(before.jobs[i].scan.depth <= m);
                }
            }
            assert forall|i: int| 0 <= i < pool.taken.len() implies (
            #[trigger] pool.taken[i]).depth <= m by {
                if i < before.taken.len() {
                    assert(before.taken[i].depth <= m);
                }
            }
        }
    }
}

/// The entry is a directory itself, not by way of a link.
pub open spec fn real_dir(disk: Disk, path: Seq<u8>) -> bool {
    match (disk.stat)(path) {
        Some(st) => st.is_dir && !st.is_symlink,
        None => false,
    }
}

/// How many entries there are among `entries` and in the real directories below
/// them, as far as these rank below `bound`.
pub open spec fn real_entries(
    disk: Disk,
    rank: spec_fn(Seq<u8>) -> nat,
    entries: Seq<Seq<u8>>,
    bound: nat,
) -> nat
    decreases bound, entries.len(),
{
    if entries.len() == 0 {
        0
    } else {
        let path = entries[0];
        1 + (if real_dir(disk, path) && rank(path) < bound {
            real_entries(disk, rank, listing(disk, path), rank(path))
        } else {
            0
        }) + real_entries(disk, rank, entries.drop_first(), bound)
    }
}

/// The entries that a job has left, with those in the real directories below.
pub open spec fn job_entries(disk: Disk, rank: spec_fn(Seq<u8>) -> nat, job: Job) -> nat {
    real_entries(disk, rank, job.todo, rank(job.scan.path))
}

/// The entries that all jobs have left, with those in the real directories below.
pub open spec fn entries_left(disk: Disk, rank: spec_fn(Seq<u8>) -> nat, jobs: Seq<Job>) -> nat
    decreases jobs.len(),
{
    if jobs.len() == 0 {
        0
    } else {
        entries_left(disk, rank, jobs.drop_last()) + job_entries(disk, rank, jobs.last())
    }
}

proof fn lemma_one_job_has_other_entries(
    disk: Disk,
    rank: spec_fn(Seq<u8>) -> nat,
    jobs: Seq<Job>,
    id: int,
    job: Job,
)
    requires
        0 <= id < jobs.len(),
    ensures
        entries_left(disk, rank, jobs.update(id, job)) + job_entries(disk, rank, jobs[id])
            == entries_left(disk, rank, jobs) + job_entries(disk, rank, job),
    decreases jobs.len(),
{
    let changed = jobs.update(id, job);
    if id == jobs.len() - 1 {
        assert(changed.drop_last() =~= jobs.drop_last());
    } else {
        lemma_one_job_has_other_entries(disk, rank, jobs.drop_last(), id, job);
        assert(changed.drop_last() =~= jobs.drop_last().update(id, job));
    }
}

/// The inodes that links lead to and that have not been noted.
pub open spec fn unseen(inodes: Set<InodeKey>, pool: Pool) -> nat {
    inodes.difference(pool.seen).len()
}

/// Every turn that takes an entry uses something up, through links or not: it
/// leaves fewer inodes for links to lead to, or as many of those and fewer entries.
pub proof fn law_turns_use_up_inodes_or_entries(
    disk: Disk,
    opts: WalkOptions,
    root: Seq<u8>,
    rank: spec_fn(Seq<u8>) -> nat,
    top: nat,
    inodes: Set<InodeKey>,
    turns: Seq<int>,
    id: int,
)
    requires
        census::ranked(disk, rank, top),
        census::links_lead_into(disk, inodes),
        inodes.finite(),
        0 <= id < run(disk, opts, root, turns).jobs.len(),
        run(disk, opts, root, turns).jobs[id].todo.len() > 0,
    ensures
        ({
            let before = run(disk, opts, root, turns);
            let after = run(disk, opts, root, turns.push(id));
            ||| unseen(inodes, after) < unseen(inodes, before)
            ||| unseen(inodes, after) == unseen(inodes, before) && entries_left(
                disk,
                rank,
                after.jobs,
            ) < entries_left(disk, rank, before.jobs)
        }),
{
    let pool = run(disk, opts, root, turns);
    let next = turn(disk, opts, pool, id);
    assert(turns.push(id).drop_last() =~= turns);
    assert(run(disk, opts, root, turns.push(id)) == next);
    lemma_jobs_are_listed(disk, opts, root, turns);
    let job = pool.jobs[id];
    let path = job.todo[0];
    let all = listing(disk, job.scan.path);
    assert(listed(disk, job));
    assert((disk.list)(job.scan.path)->0[all.len() - job.todo.len()] == path);
    assert(census::real_dir_ranks_below(disk, rank, path, job.scan.path));
    if (disk.stat)(path) is None {
        lemma_one_job_has_other_entries(disk, rank, pool.jobs, id, passed(job));
    } else {
        let f = next_found(disk, job);
        let (verdict, seen) = walker::judged(path, f.st, f.target, opts, f.depth, pool.seen);
        let after = Job { scan: scan::noted(job.scan, path, verdict).1, ..passed(job) };
        let jobs = pool.jobs.update(id, after);
        let new = opened(disk, path, job.scan.depth + 1, id);
        let a = inodes.difference(seen);
        let b = inodes.difference(pool.seen);
        assert(a.subset_of(b));
        vstd::set_lib::lemma_len_subset(a, b);
        lemma_one_job_has_other_entries(disk, rank, pool.jobs, id, after);
        if verdict is Descend {
            assert(next.jobs.drop_last() =~= jobs);
            assert(next.jobs.last() == new);
            if f.st.is_symlink {
                let key = ((disk.target)(path)->0).inode;
                assert(inodes.contains(key));
                assert(b.contains(key) && !a.contains(key));
                assert(a.subset_of(b.remove(key)));
                vstd::set_lib::lemma_len_subset(a, b.remove(key));
            } else {
                assert(seen == pool.seen);
                assert(job_entries(disk, rank, new) == real_entries(
                    disk,
                    rank,
                    listing(disk, path),
                    rank(path),
                ));
                assert(job_entries(disk, rank, job) == 1 + job_entries(disk, rank, new)
                    + job_entries(disk, rank, after));
            }
        }
    }
}

/// Symbolic links cannot trap threads: where no real directory is below itself
/// and the links lead to finitely many inodes, whatever turns the threads have
/// taken, these turns finish the walk, links or not, cycles or not.
pub proof fn law_links_cannot_trap_threads(
    disk: Disk,
    opts: WalkOptions,
    root: Seq<u8>,
    rank: spec_fn(Seq<u8>) -> nat,
    top: nat,
    inodes: Set<InodeKey>,
    turns: Seq<int>,
) -> (more: Seq<int>)
    requires
        census::ranked(disk, rank, top),
        census::links_lead_into(disk, inodes),
        inodes.finite(),
    ensures
        finished(run(disk, opts, root, turns + more)),
    decreases
            unseen(inodes, run(disk, opts, root, turns)),
            entries_left(disk, rank, run(disk, opts, root, turns).jobs),
{
    let pool = run(disk, opts, root, turns);
    if finished(pool) {
        assert(turns + seq![] =~= turns);
        seq![]
    } else {
        let id = choose|i: int|
            0 <= i < pool.jobs.len() && (#[trigger] pool.jobs[i]).todo.len() != 0;
        law_turns_use_up_inodes_or_entries(disk, opts, root, rank, top, inodes, turns, id);
        let rest = law_links_cannot_trap_threads(
            disk,
            opts,
            root,
            rank,
            top,
            inodes,
            turns.push(id),
        );
        assert(turns + (seq![id] + rest) =~= turns.push(id) + rest);
        seq![id] + rest
    }
}

} // verus!
