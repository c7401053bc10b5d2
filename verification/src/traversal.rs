//! A walk of one thread, as the questions that it asks of the filesystem.
//!
//! A [`Walk`] names what it needs to know next: the entries of a directory, what
//! the system says of an entry, or what a symbolic link leads to. It takes the
//! answer and goes on, until the tree of all that was counted is complete.

use crate::aggregator::{DirNode, Entry, EntryNode};
use crate::order::reversed;
use crate::path::PathBuf;
use crate::stat::{FileStat, InodeKey, InodeSet};
use crate::walker::{judge, needs_target, Verdict, WalkOptions};
use crate::{aggregator, walker};
use vstd::prelude::*;

verus! {

/// What a walk has counted: files, and directories with what is below them.
pub enum Tree {
    File(Entry),
    Dir(Seq<u8>, Seq<Tree>),
}

/// The trees that `children` hold.
pub open spec fn trees_of(children: Seq<EntryNode>) -> Seq<Tree>
    decreases children,
{
    if children.len() == 0 {
        seq![]
    } else {
        trees_of(children.drop_last()).push(tree_at(children.last()))
    }
}

pub open spec fn tree_at(e: EntryNode) -> Tree
    decreases e,
{
    match e {
        EntryNode::File(f) => Tree::File((f.path@, f.size)),
        EntryNode::Dir(d) => Tree::Dir(d.path@, trees_of(d.children@)),
    }
}

/// All files in `trees`.
pub open spec fn files_in(trees: Seq<Tree>) -> Seq<Entry>
    decreases trees,
{
    if trees.len() == 0 {
        seq![]
    } else {
        files_in(trees.drop_last()) + files_in_tree(trees.last())
    }
}

pub open spec fn files_in_tree(t: Tree) -> Seq<Entry>
    decreases t,
{
    match t {
        Tree::File(e) => seq![e],
        Tree::Dir(_, below) => files_in(below),
    }
}

/// A directory whose totals a walk is still adding up.
pub struct FrameState {
    pub path: Seq<u8>,
    /// What has been counted in it.
    pub done: Seq<Tree>,
    /// The entries that have not been looked at.
    pub todo: Seq<Seq<u8>>,
}

/// What a walk needs to know next.
pub enum Question {
    /// The entries of this directory.
    List(Seq<u8>),
    /// What the system says of this entry.
    Stat(Seq<u8>),
    /// What this symbolic link, of which the system says this, leads to.
    Follow(Seq<u8>, FileStat),
    /// Nothing: this is the tree.
    Done(Tree),
    /// Nothing: the sizes add up to more than 64 bits hold.
    Overflow,
}

/// The state of a walk.
pub struct WalkState {
    pub opts: WalkOptions,
    pub seen: Set<InodeKey>,
    /// The directories that are open, from the root down.
    pub stack: Seq<FrameState>,
    pub asked: Question,
    /// The bytes of all files counted.
    pub total: nat,
    /// The number of all files counted.
    pub count: nat,
}

/// `stack` with `trees` added to what has been counted in its last directory.
pub open spec fn with_done(stack: Seq<FrameState>, trees: Seq<Tree>) -> Seq<FrameState> {
    let last = stack.last();
    stack.drop_last().push(FrameState { path: last.path, done: last.done + trees, todo: last.todo })
}

/// `stack` with other entries to look at in its last directory.
pub open spec fn with_todo(stack: Seq<FrameState>, todo: Seq<Seq<u8>>) -> Seq<FrameState> {
    let last = stack.last();
    stack.drop_last().push(FrameState { path: last.path, done: last.done, todo })
}

/// What is asked next, and the directories then open: the next entry of the
/// last directory, or of the nearest one above it that has entries left.
pub open spec fn settled(stack: Seq<FrameState>) -> (Seq<FrameState>, Question)
    decreases stack.len(),
{
    if stack.len() == 0 {
        (stack, Question::Overflow)
    } else {
        let last = stack.last();
        if last.todo.len() > 0 {
            (with_todo(stack, last.todo.drop_first()), Question::Stat(last.todo[0]))
        } else {
            let tree = Tree::Dir(last.path, last.done);
            if stack.len() == 1 {
                (stack.drop_last(), Question::Done(tree))
            } else {
                settled(with_done(stack.drop_last(), seq![tree]))
            }
        }
    }
}

/// The walk goes on with the next entry.
pub open spec fn moved_on(s: WalkState) -> WalkState {
    let (stack, asked) = settled(s.stack);
    WalkState { stack, asked, ..s }
}

/// The state of a walk that starts at `root`.
pub open spec fn started(root: Seq<u8>, opts: WalkOptions) -> WalkState {
    WalkState {
        opts,
        seen: Set::empty(),
        stack: seq![],
        asked: Question::List(root),
        total: 0,
        count: 0,
    }
}

/// The directory is opened with these entries; one that cannot be read has none.
pub open spec fn after_list(s: WalkState, path: Seq<u8>, entries: Option<Seq<Seq<u8>>>) -> WalkState {
    let todo = match entries {
        Some(todo) => todo,
        None => seq![],
    };
    moved_on(WalkState { stack: s.stack.push(FrameState { path, done: seq![], todo }), ..s })
}

/// The depth of the directory whose entries are being looked at.
pub open spec fn depth_of(s: WalkState) -> nat {
    (s.stack.len() - 1) as nat
}

/// The walk does with an entry what was decided.
pub open spec fn after_verdict(s: WalkState, path: Seq<u8>, verdict: Verdict) -> WalkState {
    match verdict {
        Verdict::Skip => moved_on(s),
        Verdict::Descend => WalkState { asked: Question::List(path), ..s },
        Verdict::Count(size) => if s.total + size > u64::MAX || s.count >= u64::MAX {
            WalkState { asked: Question::Overflow, ..s }
        } else {
            moved_on(
                WalkState {
                    stack: with_done(s.stack, seq![Tree::File((path, size))]),
                    total: s.total + size as nat,
                    count: s.count + 1,
                    ..s
                },
            )
        },
    }
}

/// The entry is judged by what the system says of it; one that it says nothing
/// of is passed over. A symbolic link may have to be followed first.
pub open spec fn after_stat(s: WalkState, path: Seq<u8>, st: Option<FileStat>) -> WalkState {
    match st {
        None => moved_on(s),
        Some(st) => if st.is_symlink && s.opts.follow_symlinks {
            WalkState { asked: Question::Follow(path, st), ..s }
        } else {
            let (verdict, seen) = walker::judged(path, st, None, s.opts, depth_of(s), s.seen);
            after_verdict(WalkState { seen, ..s }, path, verdict)
        },
    }
}

/// The symbolic link is judged by what it leads to.
pub open spec fn after_follow(
    s: WalkState,
    path: Seq<u8>,
    st: FileStat,
    target: Option<FileStat>,
) -> WalkState {
    let (verdict, seen) = walker::judged(path, st, target, s.opts, depth_of(s), s.seen);
    after_verdict(WalkState { seen, ..s }, path, verdict)
}

/// An open directory.
#[derive(Debug)]
struct Frame {
    node: DirNode,
    /// The entries that have not been looked at, the next one last.
    todo: Vec<PathBuf>,
}

spec fn paths_back(v: Seq<PathBuf>) -> Seq<Seq<u8>> {
    Seq::new(v.len(), |i: int| v[v.len() - 1 - i]@)
}

impl Frame {
    spec fn state(self) -> FrameState {
        FrameState {
            path: self.node.path@,
            done: trees_of(self.node.children@),
            todo: paths_back(self.todo@),
        }
    }
}

spec fn frame_states(stack: Seq<Frame>) -> Seq<FrameState> {
    stack.map_values(|f: Frame| f.state())
}

spec fn all_rolled_up(stack: Seq<Frame>) -> bool {
    forall|i: int| 0 <= i < stack.len() ==> (#[trigger] stack[i]).node.rolled_up()
}

spec fn size_total(stack: Seq<Frame>) -> nat
    decreases stack.len(),
{
    if stack.len() == 0 {
        0
    } else {
        size_total(stack.drop_last()) + stack.last().node.total_size as nat
    }
}

spec fn count_total(stack: Seq<Frame>) -> nat
    decreases stack.len(),
{
    if stack.len() == 0 {
        0
    } else {
        count_total(stack.drop_last()) + stack.last().node.file_count as nat
    }
}

/// What a walk needs to know next.
#[derive(Debug)]
pub enum Asked {
    /// The entries of this directory.
    List(PathBuf),
    /// What the system says of this entry.
    Stat(PathBuf),
    /// What this symbolic link, of which the system says this, leads to.
    Follow(PathBuf, FileStat),
    /// Nothing: this is the tree.
    Done(DirNode),
    /// Nothing: the sizes add up to more than 64 bits hold.
    Overflow,
}

impl View for Asked {
    type V = Question;

    open spec fn view(&self) -> Question {
        match *self {
            Asked::List(path) => Question::List(path@),
            Asked::Stat(path) => Question::Stat(path@),
            Asked::Follow(path, st) => Question::Follow(path@, st),
            Asked::Done(node) => Question::Done(Tree::Dir(node.path@, trees_of(node.children@))),
            Asked::Overflow => Question::Overflow,
        }
    }
}

/// A walk that is under way.
#[derive(Debug)]
pub struct Walk {
    opts: WalkOptions,
    seen: InodeSet,
    stack: Vec<Frame>,
    asked: Asked,
    total: u64,
    count: u64,
}

impl View for Walk {
    type V = WalkState;

    closed spec fn view(&self) -> WalkState {
        WalkState {
            opts: self.opts,
            seen: self.seen@,
            stack: frame_states(self.stack@),
            asked: self.asked@,
            total: self.total as nat,
            count: self.count as nat,
        }
    }
}

impl Walk {
    /// The directories on the stack are rolled up, and together they hold what
    /// has been counted.
    pub closed spec fn wf(self) -> bool {
        &&& all_rolled_up(self.stack@)
        &&& match self.asked {
            Asked::Done(node) => {
                &&& node.rolled_up()
                &&& node.total_size == self.total
                &&& node.file_count == self.count
                &&& self.stack@.len() == 0
            },
            Asked::Overflow => true,
            Asked::List(_) => {
                &&& size_total(self.stack@) == self.total
                &&& count_total(self.stack@) == self.count
            },
            Asked::Stat(_) => {
                &&& size_total(self.stack@) == self.total
                &&& count_total(self.stack@) == self.count
                &&& self.stack@.len() > 0
            },
            Asked::Follow(_, st) => {
                &&& size_total(self.stack@) == self.total
                &&& count_total(self.stack@) == self.count
                &&& self.stack@.len() > 0
                &&& st.wf()
            },
        }
    }

    /// A walk that starts at `root`.
    pub fn new(root: PathBuf, opts: WalkOptions) -> (r: Walk)
        ensures
            r.wf(),
            r@ == started(root@, opts),
    {
        let r = Walk {
            opts,
            seen: InodeSet::new(),
            stack: Vec::new(),
            asked: Asked::List(root),
            total: 0,
            count: 0,
        };
        assert(frame_states(r.stack@) =~= seq![]);
        r
    }

    /// What the walk needs to know next.
    pub fn asked(&self) -> (r: &Asked)
        ensures
            r@ == self@.asked,
    {
        &self.asked
    }
}

proof fn lemma_push_frame(stack: Seq<Frame>, frame: Frame)
    ensures
        frame_states(stack.push(frame)) == frame_states(stack).push(frame.state()),
        size_total(stack.push(frame)) == size_total(stack) + frame.node.total_size,
        count_total(stack.push(frame)) == count_total(stack) + frame.node.file_count,
        all_rolled_up(stack) && frame.node.rolled_up() ==> all_rolled_up(stack.push(frame)),
{
    assert(stack.push(frame).drop_last() =~= stack);
    assert(frame_states(stack.push(frame)) =~= frame_states(stack).push(frame.state()));
}

proof fn lemma_pop_frame(stack: Seq<Frame>)
    requires
        stack.len() > 0,
    ensures
        frame_states(stack).drop_last() == frame_states(stack.drop_last()),
        frame_states(stack).last() == stack.last().state(),
        size_total(stack) == size_total(stack.drop_last()) + stack.last().node.total_size,
        count_total(stack) == count_total(stack.drop_last()) + stack.last().node.file_count,
        all_rolled_up(stack) ==> all_rolled_up(stack.drop_last()) && stack.last().node.rolled_up(),
{
    assert(frame_states(stack).drop_last() =~= frame_states(stack.drop_last()));
}

/// Goes on with the next entry.
fn settle(opts: WalkOptions, seen: InodeSet, frames: Vec<Frame>, total: u64, count: u64) -> (r: Walk)
    requires
        frames@.len() > 0,
        all_rolled_up(frames@),
        size_total(frames@) == total,
        count_total(frames@) == count,
    ensures
        r.wf(),
        r@ == moved_on(
            (WalkState {
                opts,
                seen: seen@,
                stack: frame_states(frames@),
                asked: Question::Overflow,
                total: total as nat,
                count: count as nat,
            }),
        ),
{
    let mut stack = frames;
    let ghost goal = settled(frame_states(frames@));
    loop
        invariant
            stack@.len() > 0,
            all_rolled_up(stack@),
            size_total(stack@) == total,
            count_total(stack@) == count,
            goal == settled(frame_states(frames@)),
            settled(frame_states(stack@)) == goal,
        decreases stack@.len(),
    {
        let ghost whole = stack@;
        proof {
            lemma_pop_frame(whole);
        }
        let mut frame = stack.pop().unwrap();
        let ghost below = stack@;
        let ghost before = frame;
        assert(below =~= whole.drop_last());
        match frame.todo.pop() {
            Some(path) => {
                proof {
                    assert(before.state().todo[0] == path@);
                    assert(frame.state().todo =~= before.state().todo.drop_first());
                    lemma_push_frame(below, frame);
                    assert(frame_states(below).push(frame.state()) =~= with_todo(
                        frame_states(whole),
                        before.state().todo.drop_first(),
                    ));
                }
                stack.push(frame);
                return Walk { opts, seen, stack, asked: Asked::Stat(path), total, count };
            },
            None => {
                assert(before.state().todo.len() == 0);
                if stack.len() == 0 {
                    assert(size_total(below) == 0 && count_total(below) == 0);
                    assert(frame_states(stack@) =~= seq![]);
                    assert(frame_states(whole).drop_last() =~= seq![]);
                    return Walk {
                        opts,
                        seen,
                        stack,
                        asked: Asked::Done(frame.node),
                        total,
                        count,
                    };
                }
                proof {
                    lemma_pop_frame(below);
                }
                let mut parent = stack.pop().unwrap();
                let ghost above = parent;
                assert(stack@ =~= below.drop_last());
                let ghost tree = Tree::Dir(frame.node.path@, trees_of(frame.node.children@));
                parent.node.adopt(frame.node);
                proof {
                    let children = parent.node.children@;
                    assert(children.drop_last() =~= above.node.children@);
                    assert(tree_at(children.last()) == tree);
                    assert(trees_of(children) =~= trees_of(above.node.children@) + seq![tree]);
                    lemma_push_frame(stack@, parent);
                    assert(frame_states(stack@).push(parent.state()) =~= with_done(
                        frame_states(below),
                        seq![tree],
                    ));
                }
                stack.push(parent);
            },
        }
    }
}

/// The paths as plain bytes, in their order.
pub open spec fn path_views(v: Seq<PathBuf>) -> Seq<Seq<u8>> {
    v.map_values(|p: PathBuf| p@)
}

/// The answer as plain bytes.
pub open spec fn listing_view(entries: Option<Vec<PathBuf>>) -> Option<Seq<Seq<u8>>> {
    match entries {
        Some(v) => Some(path_views(v@)),
        None => None,
    }
}

impl Walk {
    /// Takes the entries of the directory that was asked for; none where it
    /// cannot be read.
    pub fn answer_list(self, entries: Option<Vec<PathBuf>>) -> (r: Walk)
        requires
            self.wf(),
            self@.asked is List,
        ensures
            r.wf(),
            r@ == after_list(self@, self@.asked->List_0, listing_view(entries)),
    {
        let Walk { opts, seen, stack, asked, total, count } = self;
        match asked {
            Asked::List(path) => {
                let todo = match entries {
                    Some(paths) => reversed(paths),
                    None => Vec::new(),
                };
                assert(entries matches Some(paths) ==> paths_back(todo@) =~= path_views(paths@));
                let mut frames = stack;
                let frame = Frame { node: DirNode::new(path), todo };
                proof {
                    lemma_push_frame(frames@, frame);
                    assert(frame.state().done =~= seq![]);
                    assert(entries is None ==> frame.state().todo =~= seq![]);
                }
                frames.push(frame);
                settle(opts, seen, frames, total, count)
            },
            _ => vstd::pervasive::unreached(),
        }
    }

    /// Takes what the system says of the entry that was asked for; nothing where
    /// it could not be asked. Whether a file was counted.
    pub fn answer_stat(self, st: Option<FileStat>) -> (r: (Walk, bool))
        requires
            self.wf(),
            self@.asked is Stat,
            st matches Some(st) ==> st.wf(),
        ensures
            r.0.wf(),
            r.0@ == after_stat(self@, self@.asked->Stat_0, st),
            r.1 == (r.0@.count > self@.count),
    {
        let Walk { opts, seen, stack, asked, total, count } = self;
        match asked {
            Asked::Stat(path) => match st {
                None => (settle(opts, seen, stack, total, count), false),
                Some(st) => {
                    if needs_target(&st, &opts) {
                        (
                            Walk { opts, seen, stack, asked: Asked::Follow(path, st), total, count },
                            false,
                        )
                    } else {
                        act(opts, seen, stack, total, count, path, st, None)
                    }
                },
            },
            _ => vstd::pervasive::unreached(),
        }
    }

    /// Takes what the symbolic link that was asked for leads to; nothing where it
    /// leads nowhere. Whether a file was counted.
    pub fn answer_follow(self, target: Option<FileStat>) -> (r: (Walk, bool))
        requires
            self.wf(),
            self@.asked is Follow,
            target matches Some(end) ==> end.wf(),
        ensures
            r.0.wf(),
            r.0@ == after_follow(self@, self@.asked->Follow_0, self@.asked->Follow_1, target),
            r.1 == (r.0@.count > self@.count),
    {
        let Walk { opts, seen, stack, asked, total, count } = self;
        match asked {
            Asked::Follow(path, st) => act(opts, seen, stack, total, count, path, st, target),
            _ => vstd::pervasive::unreached(),
        }
    }

    /// The finished tree.
    pub fn into_tree(self) -> (r: DirNode)
        requires
            self.wf(),
            self@.asked is Done,
        ensures
            self@.asked == Question::Done(Tree::Dir(r.path@, trees_of(r.children@))),
            r.rolled_up(),
            r.total_size == self@.total,
            r.file_count == self@.count,
    {
        match self.asked {
            Asked::Done(node) => node,
            _ => vstd::pervasive::unreached(),
        }
    }
}

/// Judges an entry and does with it what was decided.
fn act(
    opts: WalkOptions,
    met: InodeSet,
    frames: Vec<Frame>,
    total: u64,
    count: u64,
    path: PathBuf,
    st: FileStat,
    target: Option<FileStat>,
) -> (r: (Walk, bool))
    requires
        frames@.len() > 0,
        all_rolled_up(frames@),
        size_total(frames@) == total,
        count_total(frames@) == count,
        st.wf(),
        target matches Some(end) ==> end.wf(),
    ensures
        r.0.wf(),
        ({
            let s = WalkState {
                opts,
                seen: met@,
                stack: frame_states(frames@),
                asked: Question::Overflow,
                total: total as nat,
                count: count as nat,
            };
            r.0@ == after_follow(s, path@, st, target)
        }),
        r.1 == (r.0@.count > count),
{
    let mut seen = met;
    let mut stack = frames;
    let depth: usize = stack.len() - 1;
    let verdict = judge(&path, &st, &target, &opts, depth, &mut seen);
    match verdict {
        Verdict::Skip => (settle(opts, seen, stack, total, count), false),
        Verdict::Descend => (
            Walk { opts, seen, stack, asked: Asked::List(path), total, count },
            false,
        ),
        Verdict::Count(size) => {
            if total > u64::MAX - size || count == u64::MAX {
                return (Walk { opts, seen, stack, asked: Asked::Overflow, total, count }, false);
            }
            let ghost whole = stack@;
            proof {
                lemma_pop_frame(whole);
            }
            let mut frame = stack.pop().unwrap();
            let ghost before = frame;
            assert(stack@ =~= whole.drop_last());
            let ghost tree = Tree::File((path@, size));
            frame.node.add_file(path, size);
            proof {
                let children = frame.node.children@;
                assert(children.drop_last() =~= before.node.children@);
                assert(tree_at(children.last()) == tree);
                assert(trees_of(children) =~= trees_of(before.node.children@) + seq![tree]);
                lemma_push_frame(stack@, frame);
                assert(frame_states(stack@).push(frame.state()) =~= with_done(
                    frame_states(whole),
                    seq![tree],
                ));
            }
            stack.push(frame);
            (settle(opts, seen, stack, total + size, count + 1), true)
        },
    }
}

/// The files of a tree are those that its directories list.
pub proof fn law_tree_lists_its_files(d: DirNode)
    ensures
        files_in(trees_of(d.children@)) == d.files(),
{
    lemma_files_of_children(d.children@);
}

proof fn lemma_files_of_children(children: Seq<EntryNode>)
    ensures
        files_in(trees_of(children)) == aggregator::files_below(children),
    decreases children,
{
    if children.len() > 0 {
        lemma_files_of_children(children.drop_last());
        lemma_files_of_entry(children.last());
        assert(trees_of(children).drop_last() =~= trees_of(children.drop_last()));
        assert(trees_of(children).last() == tree_at(children.last()));
    }
}

proof fn lemma_files_of_entry(e: EntryNode)
    ensures
        files_in_tree(tree_at(e)) == aggregator::files_at(e),
    decreases e,
{
    if let EntryNode::Dir(d) = e {
        lemma_files_of_children(d.children@);
    }
}

proof fn lemma_settled_goes_on(stack: Seq<FrameState>)
    requires
        stack.len() > 0,
    ensures
        settled(stack).1 is Stat || settled(stack).1 is Done,
    decreases stack.len(),
{
    if stack.last().todo.len() == 0 && stack.len() > 1 {
        let tree = Tree::Dir(stack.last().path, stack.last().done);
        lemma_settled_goes_on(with_done(stack.drop_last(), seq![tree]));
    }
}

/// A counted file adds its bytes and one to the totals. The walk is given up just
/// where the bytes or the number of files would not fit in 64 bits.
pub proof fn law_walk_counts_what_fits(s: WalkState, path: Seq<u8>, size: u64)
    requires
        s.stack.len() > 0,
        s.count <= u64::MAX,
    ensures
        ({
            let next = after_verdict(s, path, Verdict::Count(size));
            &&& next.asked is Overflow <==> s.total + size > u64::MAX || s.count + 1 > u64::MAX
            &&& !(next.asked is Overflow) ==> next.total == s.total + size && next.count == s.count
                + 1
            &&& next.seen == s.seen && next.opts == s.opts
        }),
{
    lemma_settled_goes_on(with_done(s.stack, seq![Tree::File((path, size))]));
}

/// A walk looks at the entries of a directory from the first to the last, enters a
/// directory as soon as it is to be entered, and asks where a link leads just where
/// links are followed. A directory that cannot be read is an empty one, and an entry
/// of which the system says nothing is passed over.
pub proof fn law_walk_goes_on_with_the_next_entry(
    s: WalkState,
    path: Seq<u8>,
    entries: Seq<Seq<u8>>,
    st: FileStat,
)
    ensures
        entries.len() > 0 ==> {
            let next = after_list(s, path, Some(entries));
            &&& next.asked == Question::Stat(entries[0])
            &&& next.stack.len() == s.stack.len() + 1
            &&& next.stack.last().path == path
            &&& next.stack.last().todo == entries.drop_first()
            &&& next.stack.last().done.len() == 0
            &&& next.stack.drop_last() == s.stack
            &&& next.total == s.total && next.count == s.count && next.seen == s.seen
        },
        after_list(s, path, None) == after_list(s, path, Some(Seq::<Seq<u8>>::empty())),
        after_stat(s, path, None) == after_verdict(s, path, Verdict::Skip),
        after_verdict(s, path, Verdict::Descend) == (WalkState { asked: Question::List(path), ..s }),
        s.stack.len() > 0 && s.stack.last().todo.len() > 0 ==> {
            let next = after_verdict(s, path, Verdict::Skip);
            &&& next.asked == Question::Stat(s.stack.last().todo[0])
            &&& next.stack.last().todo == s.stack.last().todo.drop_first()
            &&& next.stack.last().done == s.stack.last().done
            &&& next.stack.drop_last() == s.stack.drop_last()
            &&& next.total == s.total && next.count == s.count && next.seen == s.seen
        },
        st.is_symlink && s.opts.follow_symlinks ==> after_stat(s, path, Some(st)) == (WalkState {
            asked: Question::Follow(path, st),
            ..s
        }),
        s.stack.len() > 0 && !(st.is_symlink && s.opts.follow_symlinks) ==> !(after_stat(
            s,
            path,
            Some(st),
        ).asked is Follow),
{
    let stack = s.stack.push(FrameState { path, done: seq![], todo: entries });
    if entries.len() > 0 {
        assert(stack.drop_last() =~= s.stack);
        assert(with_todo(stack, entries.drop_first()).drop_last() =~= s.stack);
    }
    if s.stack.len() > 0 && s.stack.last().todo.len() > 0 {
        assert(with_todo(s.stack, s.stack.last().todo.drop_first()).drop_last()
            =~= s.stack.drop_last());
    }
    if s.stack.len() > 0 {
        lemma_settled_goes_on(s.stack);
        let (verdict, _) = walker::judged(path, st, None, s.opts, depth_of(s), s.seen);
        if let Verdict::Count(size) = verdict {
            lemma_settled_goes_on(with_done(s.stack, seq![Tree::File((path, size))]));
        }
    }
}

} // verus!
