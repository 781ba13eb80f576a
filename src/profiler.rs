//! A frame profiler: a ring of recent frames, each holding a tree of timed
//! blocks, built from events that carry performance-counter readings.
use vstd::prelude::*;

use crate::tree::{link_ok, pushed, root_node, Dfs, Node, NodeRef, Tree};

verus! {

/// How many frames the profiler keeps.
pub const FRAME_CAPACITY: usize = 1024;

/// A timed region of code.
#[derive(Clone)]
pub struct Block {
    pub file: &'static str,
    pub line: u32,
    pub name: String,
    pub frequency: u64,
    pub begin: u64,
    pub end: u64,
}

impl Block {
    pub fn file(&self) -> (r: &str)
        ensures
            r@ == self.file@,
    {
        self.file
    }

    pub fn line(&self) -> (r: u32)
        ensures
            r == self.line,
    {
        self.line
    }

    pub fn name(&self) -> (r: &str)
        ensures
            r@ == self.name@,
    {
        self.name.as_str()
    }
}

/// A block that spans a whole frame begun at `counter`.
pub open spec fn is_root_block(b: Block, frequency: u64, counter: u64) -> bool {
    &&& b.file@ == Seq::<char>::empty()
    &&& b.line == 0
    &&& b.name@ == Seq::<char>::empty()
    &&& b.frequency == frequency
    &&& b.begin == counter
    &&& b.end == counter
}

/// Frame `g` is frame `f` after a block was opened at `counter` under the
/// current block: the new block is the frame's last, and it becomes current.
pub open spec fn block_opened(f: Frame, counter: u64, file: &'static str, line: u32, name: String, g: Frame) -> bool {
    let ob = f.blocks()->0;
    let n = ob.len() as int;
    &&& g.blocks() matches Some(b) && b.len() == n + 1 && b == pushed(ob, f.current_block() as int, b[n].data)
        && b[n].data.file == file && b[n].data.line == line && b[n].data.name == name && b[n].data.frequency
        == f.frame_frequency() && b[n].data.begin == counter && b[n].data.end == counter
    &&& g.current_block() == n
    &&& g.frame_count() == f.frame_count()
    &&& g.frame_frequency() == f.frame_frequency()
}

/// Frame `g` is frame `f` after its current block was closed at `counter`:
/// the block's end is set and its parent becomes current.
pub open spec fn block_closed(f: Frame, counter: u64, g: Frame) -> bool {
    let ob = f.blocks()->0;
    let c = f.current_block() as int;
    &&& g.blocks() == Some(ob.update(c, Node { data: Block { end: counter, ..ob[c].data }, ..ob[c] }))
    &&& Some(g.current_block()) == ob[c].parent_id
    &&& g.frame_count() == f.frame_count()
    &&& g.frame_frequency() == f.frame_frequency()
}

/// The block that spans a whole frame.
pub fn root_block(frequency: u64, current_counter: u64) -> (r: Block)
    ensures
        is_root_block(r, frequency, current_counter),
{
    let file: &'static str = "";
    let name = String::new();
    proof {
        reveal_strlit("");
        assert(file@ == Seq::<char>::empty());
        assert(name@ == Seq::<char>::empty());
    }
    Block { file, line: 0, name, frequency, begin: current_counter, end: current_counter }
}

/// Why a sequence of profile events could not be applied.
#[derive(Clone, Copy, PartialEq, Eq, Structural, Debug)]
pub enum ProfileError {
    /// A frame began while another was still running.
    FrameAlreadyBegun,
    /// A frame ended, or a block was closed, while no frame was running.
    NoFrame,
    /// A frame began or ended while blocks of it were still open.
    BlocksOpen,
    /// A block was closed while none was open.
    NoOpenBlock,
    /// A counter or a frame's block count reached its limit.
    Exhausted,
}

/// The measurements of one frame.
#[derive(Clone)]
pub struct Frame {
    count: u64,
    frequency: u64,
    block_tree: Option<Tree<Block>>,
    current_block_id: usize,
}

impl Frame {
    /// The frame's blocks, once it has begun.
    pub closed spec fn blocks(&self) -> Option<Seq<Node<Block>>> {
        match self.block_tree {
            Some(t) => Some(t@),
            None => None,
        }
    }

    /// The innermost open block.
    pub closed spec fn current_block(&self) -> usize {
        self.current_block_id
    }

    pub closed spec fn frame_count(&self) -> u64 {
        self.count
    }

    pub closed spec fn frame_frequency(&self) -> u64 {
        self.frequency
    }

    pub closed spec fn wf(&self) -> bool {
        match self.block_tree {
            Some(t) => t.wf() && self.current_block_id < t@.len(),
            None => self.current_block_id == 0,
        }
    }

    pub fn new() -> (r: Frame)
        ensures
            r.wf(),
            r.blocks() is None,
            r.current_block() == 0,
            r.frame_count() == 0,
            r.frame_frequency() == 0,
    {
        Frame { count: 0, frequency: 0, block_tree: None, current_block_id: 0 }
    }

    /// Starts the frame afresh with a root block opened at `counter`.
    pub fn begin(&mut self, counter: u64)
        requires
            old(self).wf(),
            old(self).current_block() == 0,
        ensures
            final(self).wf(),
            final(self).blocks() matches Some(b) && b.len() == 1 && b[0] == root_node(b[0].data) && is_root_block(
                b[0].data,
                old(self).frame_frequency(),
                counter,
            ),
            final(self).current_block() == 0,
            final(self).frame_count() == old(self).frame_count(),
            final(self).frame_frequency() == old(self).frame_frequency(),
    {
        let root = root_block(self.frequency, counter);
        match self.block_tree {
            Some(ref mut block_tree) => {
                block_tree.clear(root);
            },
            None => {
                self.block_tree = Some(Tree::new(root));
            },
        }
    }

    /// Closes the root block at `counter`.
    pub fn end(&mut self, counter: u64)
        requires
            old(self).wf(),
            old(self).current_block() == 0,
            old(self).blocks() is Some,
        ensures
            final(self).wf(),
            final(self).blocks() == Some(
                old(self).blocks()->0.update(0, Node { data: Block { end: counter, ..old(self).blocks()->0[0].data }, ..old(self).blocks()->0[0] }),
            ),
            final(self).current_block() == 0,
            final(self).frame_count() == old(self).frame_count(),
            final(self).frame_frequency() == old(self).frame_frequency(),
    {
        self.set_block_end(counter);
    }

    /// Sets the end of the current block.
    fn set_block_end(&mut self, counter: u64)
        requires
            old(self).wf(),
            old(self).blocks() is Some,
        ensures
            final(self).wf(),
            final(self).block_tree is Some,
            final(self).blocks() == Some(
                old(self).blocks()->0.update(
                    old(self).current_block() as int,
                    Node {
                        data: Block { end: counter, ..old(self).blocks()->0[old(self).current_block() as int].data },
                        ..old(self).blocks()->0[old(self).current_block() as int]
                    },
                ),
            ),
            final(self).current_block() == old(self).current_block(),
            final(self).frame_count() == old(self).frame_count(),
            final(self).frame_frequency() == old(self).frame_frequency(),
    {
        let id = self.current_block_id;
        match self.block_tree {
            Some(ref mut block_tree) => {
                let node = block_tree.get_mut(id);
                match node {
                    Some(mut n) => {
                        let d = n.data();
                        d.end = counter;
                    },
                    None => {},
                }
            },
            None => {},
        }
    }

    /// Opens a block under the current one at `counter`; it becomes the
    /// current block.
    pub fn open_block(&mut self, counter: u64, file: &'static str, line: u32, name: String)
        requires
            old(self).wf(),
            old(self).blocks() matches Some(b) && b.len() < u32::MAX,
        ensures
            final(self).wf(),
            block_opened(*old(self), counter, file, line, name, *final(self)),
    {
        let new_block = Block { file, line, name, frequency: self.frequency, begin: counter, end: counter };
        let parent = self.current_block_id;
        let mut new_id: usize = 0;
        match self.block_tree {
            Some(ref mut block_tree) => {
                let id = block_tree.push(parent, new_block);
                new_id = id.unwrap();
            },
            None => {},
        }
        self.current_block_id = new_id;
    }

    /// Closes the current block at `counter`; its parent becomes current.
    pub fn close_block(&mut self, counter: u64)
        requires
            old(self).wf(),
            old(self).blocks() matches Some(b) && b[old(self).current_block() as int].parent_id is Some,
        ensures
            final(self).wf(),
            block_closed(*old(self), counter, *final(self)),
    {
        self.set_block_end(counter);
        let block_tree = self.block_tree.as_ref().unwrap();
        let node = block_tree.get(self.current_block_id).unwrap();
        let parent = node.parent().unwrap();
        self.current_block_id = parent.id;
    }

    pub fn on_block_opened(&mut self, data: BlockOpened)
        requires
            old(self).wf(),
            old(self).blocks() matches Some(b) && b.len() < u32::MAX,
        ensures
            final(self).wf(),
            block_opened(*old(self), data.counter, data.file, data.line, data.name, *final(self)),
    {
        self.open_block(data.counter, data.file, data.line, data.name);
    }

    pub fn on_block_closed(&mut self, data: BlockClosed)
        requires
            old(self).wf(),
            old(self).blocks() matches Some(b) && b[old(self).current_block() as int].parent_id is Some,
        ensures
            final(self).wf(),
            block_closed(*old(self), data.counter, *final(self)),
    {
        self.close_block(data.counter);
    }

    /// Whether a block other than the root is open.
    pub fn has_open_block(&self) -> (r: bool)
        ensures
            r == (self.current_block() != 0),
    {
        self.current_block_id != 0
    }

    /// The number of blocks, once the frame has begun.
    pub fn block_count(&self) -> (r: usize)
        requires
            self.wf(),
        ensures
            self.blocks() matches Some(b) ==> r == b.len(),
            self.blocks() is None ==> r == 0,
    {
        match self.block_tree {
            Some(ref t) => t.len(),
            None => 0,
        }
    }

    /// Whether the current block has a parent, that is, is not the root.
    pub fn current_has_parent(&self) -> (r: bool)
        requires
            self.wf(),
            self.blocks() is Some,
        ensures
            r == (self.blocks()->0[self.current_block() as int].parent_id is Some),
    {
        let t = self.block_tree.as_ref().unwrap();
        let n = t.get(self.current_block_id).unwrap();
        n.node().parent_id.is_some()
    }

    /// When the frame began: the root block's start.
    pub fn begin_counter(&self) -> (r: u64)
        requires
            self.wf(),
            self.blocks() is Some,
        ensures
            r == self.blocks()->0[0].data.begin,
    {
        match self.block_tree {
            Some(ref block_tree) => {
                let root = block_tree.root();
                root.node().data().begin
            },
            None => 0,
        }
    }

    /// The root block of the frame.
    pub fn root_block(&self) -> (r: NodeRef<'_, Block>)
        requires
            self.wf(),
            self.blocks() is Some,
        ensures
            r.id == 0,
            Some(r.tree@) == self.blocks(),
    {
        self.block_tree.as_ref().unwrap().root()
    }

    /// The frame's blocks in depth-first order.
    pub fn dfs_block_iter(&self) -> (r: Dfs<'_, Block>)
        requires
            self.wf(),
            self.blocks() is Some,
        ensures
            Some(r.tree@) == self.blocks(),
            r.tree.wf(),
            r.stack@ == seq![0usize],
    {
        self.block_tree.as_ref().unwrap().dfs_iter()
    }
}

/// The frames the profiler keeps, in a ring of `FRAME_CAPACITY`.
pub struct Profiler {
    count: u64,
    frequency: u64,
    frames: Vec<Frame>,
    next_frame_index: usize,
    current_frame_index: Option<usize>,
}

impl Profiler {
    pub closed spec fn frames_view(&self) -> Seq<Frame> {
        self.frames@
    }

    /// The running frame's place in the ring.
    pub closed spec fn current_index(&self) -> Option<usize> {
        self.current_frame_index
    }

    /// Where the next frame goes.
    pub closed spec fn next_index(&self) -> usize {
        self.next_frame_index
    }

    /// How many frames have begun.
    pub closed spec fn frame_count(&self) -> u64 {
        self.count
    }

    pub closed spec fn frequency_view(&self) -> u64 {
        self.frequency
    }

    pub closed spec fn wf(&self) -> bool {
        &&& self.frames@.len() <= FRAME_CAPACITY
        &&& self.next_frame_index < FRAME_CAPACITY
        &&& self.frames@.len() < FRAME_CAPACITY ==> self.next_frame_index == self.frames@.len()
        &&& self.current_frame_index matches Some(i) ==> i < self.frames@.len() && self.frames@[i as int].blocks() is Some
        &&& forall|i: int| 0 <= i < self.frames@.len() ==> (#[trigger] self.frames@[i]).wf()
    }

    /// A profiler with no frames, for a counter that ticks `frequency` times
    /// a second.
    pub fn new(frequency: u64) -> (r: Profiler)
        ensures
            r.wf(),
            r.frames_view().len() == 0,
            r.current_index() is None,
            r.next_index() == 0,
            r.frame_count() == 0,
            r.frequency_view() == frequency,
    {
        Profiler {
            count: 0,
            frequency,
            frames: Vec::with_capacity(FRAME_CAPACITY),
            next_frame_index: 0,
            current_frame_index: None,
        }
    }

    /// Begins a frame at `counter` in the next place of the ring, reusing
    /// the oldest frame once the ring is full.
    pub fn begin_frame(&mut self, counter: u64)
        requires
            old(self).wf(),
            old(self).current_index() is None,
            old(self).frame_count() < u64::MAX,
            old(self).frames_view().len() == FRAME_CAPACITY ==> old(self).frames_view()[old(self).next_index() as int].current_block() == 0,
        ensures
            final(self).wf(),
            frame_began(*old(self), counter, *final(self)),
    {
        self.count = self.count + 1;
        let index: usize;
        if self.frames.len() < FRAME_CAPACITY {
            self.frames.push(Frame::new());
            index = self.frames.len() - 1;
        } else {
            index = self.next_frame_index;
        }
        self.current_frame_index = Some(index);
        self.next_frame_index = (self.next_frame_index + 1) % FRAME_CAPACITY;
        let ghost before = self.frames@;
        let frequency = self.frequency;
        let count = self.count;
        let frame = &mut self.frames[index];
        frame.frequency = frequency;
        frame.count = count;
        frame.begin(counter);
        proof {
            assert forall|i: int| 0 <= i < self.frames@.len() implies (#[trigger] self.frames@[i]).wf() by {
                if i != index {
                    assert(self.frames@[i] == before[i]);
                }
            }
        }
    }

    /// Ends the running frame at `counter`.
    pub fn end_frame(&mut self, counter: u64)
        requires
            old(self).wf(),
            old(self).current_index() matches Some(i) && old(self).frames_view()[i as int].current_block() == 0
                && old(self).frames_view()[i as int].blocks() is Some,
        ensures
            final(self).wf(),
            frame_ended(*old(self), counter, *final(self)),
    {
        let index = self.current_frame_index.unwrap();
        let ghost before = self.frames@;
        let frame = &mut self.frames[index];
        frame.end(counter);
        self.current_frame_index = None;
        proof {
            assert forall|i: int| 0 <= i < self.frames@.len() implies (#[trigger] self.frames@[i]).wf() by {
                if i != index {
                    assert(self.frames@[i] == before[i]);
                }
            }
        }
    }

    /// The running frame, to change.
    pub fn current_frame_mut(&mut self) -> (r: Option<&mut Frame>)
        requires
            old(self).wf(),
        ensures
            r is Some <==> old(self).current_index() is Some,
            r matches Some(f) ==> ({
                let i = old(self).current_index()->0 as int;
                &&& *f == old(self).frames_view()[i]
                &&& final(self).frames_view() == old(self).frames_view().update(i, *final(f))
                &&& final(self).current_index() == old(self).current_index()
                &&& final(self).next_index() == old(self).next_index()
                &&& final(self).frame_count() == old(self).frame_count()
                &&& final(self).frequency_view() == old(self).frequency_view()
                &&& (final(f).wf() && final(f).blocks() is Some ==> final(self).wf())
            }),
            r is None ==> *final(self) == *old(self),
    {
        match self.current_frame_index {
            Some(index) => {
                proof {
                    assert forall|i: int| 0 <= i < self.frames@.len() && i != index implies (#[trigger] self.frames@[i]).wf() by {}
                }
                Some(&mut self.frames[index])
            },
            None => None,
        }
    }

    /// The running frame.
    pub fn current_frame(&self) -> (r: Option<&Frame>)
        requires
            self.wf(),
        ensures
            r is Some <==> self.current_index() is Some,
            r matches Some(f) ==> *f == self.frames_view()[self.current_index()->0 as int] && f.wf(),
    {
        match self.current_frame_index {
            Some(index) => Some(&self.frames[index]),
            None => None,
        }
    }

    /// The frame before the running one, or the last frame begun when none
    /// is running; `None` before any frame.
    pub fn last_frame(&self) -> (r: Option<&Frame>)
        requires
            self.wf(),
        ensures
            ({
                let ci: int = match self.current_index() {
                    Some(i) => i as int,
                    None => self.next_index() as int,
                };
                let li = (ci + FRAME_CAPACITY - 1) % (FRAME_CAPACITY as int);
                &&& r is Some <==> ((ci > 0 || self.frames_view().len() > 0) && li < self.frames_view().len())
                &&& r matches Some(f) ==> *f == self.frames_view()[li] && f.wf()
            }),
    {
        let current_index = match self.current_frame_index {
            Some(i) => i,
            None => self.next_frame_index,
        };
        if current_index > 0 || self.frames.len() > 0 {
            let li = (current_index + FRAME_CAPACITY - 1) % FRAME_CAPACITY;
            if li < self.frames.len() {
                Some(&self.frames[li])
            } else {
                None
            }
        } else {
            None
        }
    }
}

pub struct BlockOpened {
    pub counter: u64,
    pub file: &'static str,
    pub line: u32,
    pub name: String,
}

pub struct BlockClosed {
    pub counter: u64,
}

pub struct FrameBegan {
    pub counter: u64,
}

pub struct FrameEnded {
    pub counter: u64,
}

/// What happened, with the counter reading taken when it happened.
pub enum ProfileEvent {
    BlockOpened(BlockOpened),
    BlockClosed(BlockClosed),
    FrameBegan(FrameBegan),
    FrameEnded(FrameEnded),
}

/// Profiler `q` is `p` after a frame began at `counter` in the ring's next
/// place: a fresh frame holding only its root block, the others untouched.
pub open spec fn frame_began(p: Profiler, counter: u64, q: Profiler) -> bool {
    let f = q.frames_view()[p.next_index() as int];
    &&& q.frame_count() == p.frame_count() + 1
    &&& q.frequency_view() == p.frequency_view()
    &&& q.current_index() == Some(p.next_index())
    &&& q.next_index() == (p.next_index() + 1) % (FRAME_CAPACITY as int)
    &&& q.frames_view().len() == if p.frames_view().len() < FRAME_CAPACITY {
        p.frames_view().len() + 1int
    } else {
        p.frames_view().len() as int
    }
    &&& f.frame_count() == q.frame_count()
    &&& f.frame_frequency() == q.frequency_view()
    &&& f.current_block() == 0
    &&& f.blocks() matches Some(b) && b.len() == 1 && b[0] == root_node(b[0].data) && is_root_block(
        b[0].data,
        f.frame_frequency(),
        counter,
    )
    &&& forall|i: int|
        0 <= i < p.frames_view().len() && i != p.next_index() ==> #[trigger] q.frames_view()[i] == p.frames_view()[i]
}

/// Profiler `q` is `p` after its running frame ended at `counter`: the root
/// block's end is set and no frame runs.
pub open spec fn frame_ended(p: Profiler, counter: u64, q: Profiler) -> bool {
    let i = p.current_index()->0 as int;
    let of = p.frames_view()[i];
    let f = q.frames_view()[i];
    &&& q.current_index() is None
    &&& q.next_index() == p.next_index()
    &&& q.frame_count() == p.frame_count()
    &&& q.frequency_view() == p.frequency_view()
    &&& q.frames_view().len() == p.frames_view().len()
    &&& f.blocks() == Some(
        of.blocks()->0.update(0, Node { data: Block { end: counter, ..of.blocks()->0[0].data }, ..of.blocks()->0[0] }),
    )
    &&& f.current_block() == 0
    &&& f.frame_count() == of.frame_count()
    &&& f.frame_frequency() == of.frame_frequency()
    &&& forall|j: int| 0 <= j < p.frames_view().len() && j != i ==> #[trigger] q.frames_view()[j] == p.frames_view()[j]
}

/// Profiler `q` is `p` with at most its running frame changed.
pub open spec fn running_frame_changed(p: Profiler, q: Profiler) -> bool {
    let i = p.current_index()->0 as int;
    &&& q.current_index() == p.current_index()
    &&& q.next_index() == p.next_index()
    &&& q.frame_count() == p.frame_count()
    &&& q.frequency_view() == p.frequency_view()
    &&& q.frames_view().len() == p.frames_view().len()
    &&& forall|j: int| 0 <= j < p.frames_view().len() && j != i ==> #[trigger] q.frames_view()[j] == p.frames_view()[j]
}

/// What applying `event` to `p` does: `q` is the profiler after it, `r`
/// whether it was accepted. A refused event leaves the profiler as it was;
/// a block event with no running frame is accepted and changes nothing.
pub open spec fn event_applied(p: Profiler, event: ProfileEvent, q: Profiler, r: Result<(), ProfileError>) -> bool {
    let cur = p.current_index();
    let frame = p.frames_view()[cur->0 as int];
    &&& q.wf()
    &&& r is Err ==> q == p
    &&& match event {
        ProfileEvent::FrameBegan(d) => {
            let full_and_open = p.frames_view().len() == FRAME_CAPACITY
                && p.frames_view()[p.next_index() as int].current_block() != 0;
            &&& (r == Err::<(), ProfileError>(ProfileError::FrameAlreadyBegun) <==> cur is Some)
            &&& (r == Err::<(), ProfileError>(ProfileError::Exhausted) <==> cur is None && p.frame_count() == u64::MAX)
            &&& (r == Err::<(), ProfileError>(ProfileError::BlocksOpen) <==> cur is None && p.frame_count() < u64::MAX
                && full_and_open)
            &&& (r is Ok <==> cur is None && p.frame_count() < u64::MAX && !full_and_open)
            &&& r is Ok ==> frame_began(p, d.counter, q)
        },
        ProfileEvent::FrameEnded(d) => {
            &&& (r == Err::<(), ProfileError>(ProfileError::NoFrame) <==> cur is None)
            &&& (r == Err::<(), ProfileError>(ProfileError::BlocksOpen) <==> cur is Some && frame.current_block() != 0)
            &&& (r is Ok <==> cur is Some && frame.current_block() == 0)
            &&& r is Ok ==> frame_ended(p, d.counter, q)
        },
        ProfileEvent::BlockOpened(d) => {
            &&& (r is Err <==> cur is Some && frame.blocks()->0.len() >= u32::MAX)
            &&& r is Err ==> r == Err::<(), ProfileError>(ProfileError::Exhausted)
            &&& (r is Ok && cur is None) ==> q == p
            &&& (r is Ok && cur is Some) ==> running_frame_changed(p, q) && block_opened(
                frame,
                d.counter,
                d.file,
                d.line,
                d.name,
                q.frames_view()[cur->0 as int],
            )
        },
        ProfileEvent::BlockClosed(d) => {
            &&& (r is Err <==> cur is Some && frame.blocks()->0[frame.current_block() as int].parent_id is None)
            &&& r is Err ==> r == Err::<(), ProfileError>(ProfileError::NoOpenBlock)
            &&& (r is Ok && cur is None) ==> q == p
            &&& (r is Ok && cur is Some) ==> running_frame_changed(p, q) && block_closed(
                frame,
                d.counter,
                q.frames_view()[cur->0 as int],
            )
        },
    }
}

/// `q` is `p` after applying all of `events` in order, each accepted.
pub open spec fn replays(p: Profiler, events: Seq<ProfileEvent>, q: Profiler) -> bool {
    exists|states: Seq<Profiler>|
        {
            &&& states.len() == events.len() + 1
            &&& states[0] == p
            &&& states.last() == q
            &&& forall|i: int|
                0 <= i < events.len() ==> event_applied(#[trigger] states[i], events[i], states[i + 1], Ok(()))
        }
}

impl Profiler {
    pub fn on_frame_began(&mut self, data: FrameBegan)
        requires
            old(self).wf(),
            old(self).current_index() is None,
            old(self).frame_count() < u64::MAX,
            old(self).frames_view().len() == FRAME_CAPACITY ==> old(self).frames_view()[old(self).next_index() as int].current_block() == 0,
        ensures
            final(self).wf(),
            frame_began(*old(self), data.counter, *final(self)),
    {
        self.begin_frame(data.counter);
    }

    pub fn on_frame_ended(&mut self, data: FrameEnded)
        requires
            old(self).wf(),
            old(self).current_index() matches Some(i) && old(self).frames_view()[i as int].current_block() == 0,
        ensures
            final(self).wf(),
            frame_ended(*old(self), data.counter, *final(self)),
    {
        self.end_frame(data.counter);
    }

    /// Applies one event. A block event with no running frame is ignored; an
    /// event that does not fit the state is refused with the state unchanged.
    pub fn on_event(&mut self, event: ProfileEvent) -> (r: Result<(), ProfileError>)
        requires
            old(self).wf(),
        ensures
            event_applied(*old(self), event, *final(self), r),
    {
        match event {
            ProfileEvent::FrameBegan(data) => {
                if self.current_frame_index.is_some() {
                    return Err(ProfileError::FrameAlreadyBegun);
                }
                if self.count == u64::MAX {
                    return Err(ProfileError::Exhausted);
                }
                if self.frames.len() == FRAME_CAPACITY && self.frames[self.next_frame_index].has_open_block() {
                    return Err(ProfileError::BlocksOpen);
                }
                self.on_frame_began(data);
                Ok(())
            },
            ProfileEvent::FrameEnded(data) => {
                match self.current_frame_index {
                    None => Err(ProfileError::NoFrame),
                    Some(i) => {
                        if self.frames[i].has_open_block() {
                            Err(ProfileError::BlocksOpen)
                        } else {
                            self.on_frame_ended(data);
                            Ok(())
                        }
                    },
                }
            },
            ProfileEvent::BlockOpened(data) => {
                match self.current_frame_index {
                    None => Ok(()),
                    Some(i) => {
                        if self.frames[i].block_count() >= u32::MAX as usize {
                            return Err(ProfileError::Exhausted);
                        }
                        let ghost before = self.frames@;
                        self.frames[i].on_block_opened(data);
                        proof {
                            assert forall|j: int| 0 <= j < self.frames@.len() implies (#[trigger] self.frames@[j]).wf() by {
                                if j != i {
                                    assert(self.frames@[j] == before[j]);
                                }
                            }
                        }
                        Ok(())
                    },
                }
            },
            ProfileEvent::BlockClosed(data) => {
                match self.current_frame_index {
                    None => Ok(()),
                    Some(i) => {
                        if !self.frames[i].current_has_parent() {
                            return Err(ProfileError::NoOpenBlock);
                        }
                        let ghost before = self.frames@;
                        self.frames[i].on_block_closed(data);
                        proof {
                            assert forall|j: int| 0 <= j < self.frames@.len() implies (#[trigger] self.frames@[j]).wf() by {
                                if j != i {
                                    assert(self.frames@[j] == before[j]);
                                }
                            }
                        }
                        Ok(())
                    },
                }
            },
        }
    }
}

/// Records that a block opened at `counter`.
pub fn open_block(events: &mut Vec<ProfileEvent>, counter: u64, file: &'static str, line: u32, name: String)
    ensures
        final(events)@.len() == old(events)@.len() + 1,
        final(events)@.drop_last() == old(events)@,
        final(events)@.last() matches ProfileEvent::BlockOpened(b) && b.counter == counter && b.file == file
            && b.line == line && b.name == name,
{
    events.push(ProfileEvent::BlockOpened(BlockOpened { counter, file, line, name }));
    assert(events@.drop_last() =~= old(events)@);
}

/// Records that the innermost open block closed at `counter`.
pub fn close_block(events: &mut Vec<ProfileEvent>, counter: u64)
    ensures
        final(events)@.len() == old(events)@.len() + 1,
        final(events)@.drop_last() == old(events)@,
        final(events)@.last() matches ProfileEvent::BlockClosed(b) && b.counter == counter,
{
    events.push(ProfileEvent::BlockClosed(BlockClosed { counter }));
    assert(events@.drop_last() =~= old(events)@);
}

/// Records that a frame began at `counter`.
pub fn begin_frame(events: &mut Vec<ProfileEvent>, counter: u64)
    ensures
        final(events)@.len() == old(events)@.len() + 1,
        final(events)@.drop_last() == old(events)@,
        final(events)@.last() matches ProfileEvent::FrameBegan(b) && b.counter == counter,
{
    events.push(ProfileEvent::FrameBegan(FrameBegan { counter }));
    assert(events@.drop_last() =~= old(events)@);
}

/// Records that the running frame ended at `counter`.
pub fn end_frame(events: &mut Vec<ProfileEvent>, counter: u64)
    ensures
        final(events)@.len() == old(events)@.len() + 1,
        final(events)@.drop_last() == old(events)@,
        final(events)@.last() matches ProfileEvent::FrameEnded(b) && b.counter == counter,
{
    events.push(ProfileEvent::FrameEnded(FrameEnded { counter }));
    assert(events@.drop_last() =~= old(events)@);
}

/// A copy of the profiler's last frame (see `Profiler::last_frame`).
pub fn last_frame(profiler: &Profiler) -> (r: Option<Frame>)
    requires
        profiler.wf(),
    ensures
        ({
            let ci: int = match profiler.current_index() {
                Some(i) => i as int,
                None => profiler.next_index() as int,
            };
            let li = (ci + FRAME_CAPACITY - 1) % (FRAME_CAPACITY as int);
            r is Some <==> ((ci > 0 || profiler.frames_view().len() > 0) && li < profiler.frames_view().len())
        }),
{
    match profiler.last_frame() {
        Some(f) => Some(f.clone()),
        None => None,
    }
}

/// When the running frame began.
pub fn last_counter(profiler: &Profiler) -> (r: Option<u64>)
    requires
        profiler.wf(),
    ensures
        r is Some <==> profiler.current_index() is Some,
        r matches Some(c) ==> c == profiler.frames_view()[profiler.current_index()->0 as int].blocks()->0[0].data.begin,
{
    match profiler.current_frame() {
        Some(frame) => Some(frame.begin_counter()),
        None => None,
    }
}

/// How many milliseconds to sleep so that a frame that began at
/// `last_counter` lasts `counter_per_frame` ticks of a counter running at
/// `frequency` ticks a second; zero once the frame has taken that long. The
/// count is cut to 32 bits, as a `u32` cast cuts it.
pub fn sleep_millis(counter_per_frame: u64, frequency: u64, current_counter: u64, last_counter: u64) -> (r: u32)
    requires
        frequency > 0,
        last_counter <= current_counter,
    ensures
        ({
            let delta = current_counter - last_counter;
            r as int == if delta < counter_per_frame {
                ((counter_per_frame - delta) * 1000 / (frequency as int)) % 4294967296
            } else {
                0
            }
        }),
{
    let delta = current_counter - last_counter;
    if delta < counter_per_frame {
        let ms: u128 = (counter_per_frame - delta) as u128 * 1000 / frequency as u128;
        (ms % 4294967296) as u32
    } else {
        0
    }
}

/// Applies the queued events in the order they were queued and empties the
/// queue. Stops at the first event that does not fit the profiler's state,
/// dropping it and the events after it.
pub fn reduce_profile_events(profiler: &mut Profiler, events: &mut Vec<ProfileEvent>) -> (r: Result<(), ProfileError>)
    requires
        old(profiler).wf(),
    ensures
        final(events)@.len() == 0,
        r is Ok ==> replays(*old(profiler), old(events)@, *final(profiler)),
        r is Err ==> exists|k: int|
            0 <= k < old(events)@.len() && replays(*old(profiler), old(events)@.take(k), *final(profiler))
                && event_applied(*final(profiler), #[trigger] old(events)@[k], *final(profiler), r),
{
    let ghost all = events@;
    let mut pending: Vec<ProfileEvent> = Vec::new();
    assert(all.take(all.len() as int) =~= all);
    assert(all.skip(all.len() as int) =~= Seq::<ProfileEvent>::empty());
    assert(pending@ =~= reversed_events(all.skip(all.len() as int)));
    while events.len() > 0
        invariant
            pending@ == reversed_events(all.skip(events@.len() as int)),
            all == old(events)@,
            events@.len() <= all.len(),
            events@ == all.take(events@.len() as int),
        decreases events@.len(),
    {
        let ghost before = events@;
        let e = events.pop().unwrap();
        pending.push(e);
        proof {
            let n = events@.len() as int;
            assert(before.len() == n + 1);
            assert(before =~= all.take(n + 1));
            assert(e == before[n]);
            assert(events@ =~= all.take(n));
            assert(e == all[n]);
            assert(all.skip(n) =~= seq![e].add(all.skip(n + 1)));
            assert(pending@ =~= reversed_events(all.skip(n)));
        }
    }
    assert(all.skip(0) =~= all);
    let ghost mut states: Seq<Profiler> = seq![*profiler];
    let ghost mut k: int = 0;
    while pending.len() > 0
        invariant
            0 <= k <= all.len(),
            all == old(events)@,
            pending@ == reversed_events(all.skip(k)),
            profiler.wf(),
            events@.len() == 0,
            states.len() == k + 1,
            states[0] == *old(profiler),
            states.last() == *profiler,
            forall|i: int| 0 <= i < k ==> event_applied(#[trigger] states[i], all[i], states[i + 1], Ok(())),
        decreases pending@.len(),
    {
        let e = pending.pop().unwrap();
        proof {
            assert(all.skip(k).len() > 0);
            assert(k < all.len());
            assert(e == all[k]);
            assert(pending@ =~= reversed_events(all.skip(k + 1)));
        }
        let ghost before = *profiler;
        let r = profiler.on_event(e);
        if r.is_err() {
            proof {
                let pre = all.take(k);
                assert(*profiler == before);
                assert forall|i: int| 0 <= i < pre.len() implies event_applied(
                    #[trigger] states[i],
                    pre[i],
                    states[i + 1],
                    Ok(()),
                ) by {
                    assert(pre[i] == all[i]);
                }
                assert(states.len() == pre.len() + 1 && states[0] == *old(profiler) && states.last() == *profiler);
                assert(replays(*old(profiler), pre, *profiler));
                assert(event_applied(*profiler, all[k], *profiler, r));
                assert(all == old(events)@);
                assert(0 <= k < old(events)@.len());
                assert(event_applied(*profiler, old(events)@[k], *profiler, r));
            }
            return r;
        }
        proof {
            states = states.push(*profiler);
            k = k + 1;
        }
    }
    proof {
        assert(all.skip(k).len() == 0);
        assert(k == all.len());
        assert(states.len() == all.len() + 1 && states[0] == *old(profiler) && states.last() == *profiler);
        assert(replays(*old(profiler), all, *profiler));
    }
    Ok(())
}

/// The events in reverse order.
pub open spec fn reversed_events(s: Seq<ProfileEvent>) -> Seq<ProfileEvent> {
    Seq::new(s.len(), |i: int| s[s.len() - 1 - i])
}

} // verus!
