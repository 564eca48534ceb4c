use vstd::prelude::*;

verus! {

/// A path below the root, one name per component; the root is the empty path.
pub type PathView = Seq<Seq<char>>;

/// A path as the names of its components.
pub open spec fn path_view(p: Seq<String>) -> PathView {
    p.map_values(|s: String| s@)
}

/// How a flattening run ended.
#[derive(Clone, Copy, Debug, PartialEq, Eq, Structural)]
pub enum Outcome {
    /// Every file now sits directly in the root.
    Flattened,
    /// The root names a regular file, not a directory.
    NotADirectory,
    /// A filesystem operation failed; the tree may be partly flattened.
    IoFailed,
}

/// What the machine asks of the filesystem next, with paths below the root.
#[derive(Debug)]
pub enum Request {
    /// Report whether the root, and whether `node`, is a regular file.
    Inspect { node: Vec<String> },
    /// List the names of the entries of directory `dir`.
    List { dir: Vec<String> },
    /// Rename file `file` to the entry of the root with the same last name.
    Move { file: Vec<String> },
    /// Remove the (now empty) directory `dir`.
    Remove { dir: Vec<String> },
    /// Nothing more to do.
    Finish { outcome: Outcome },
}

/// What the filesystem answered to the last request.
#[derive(Debug)]
pub enum Event {
    /// Answer to `Inspect`.
    Inspected { root_is_file: bool, node_is_file: bool },
    /// Answer to `List`: the entries' names, in any order.
    Listed { names: Vec<String> },
    /// A `Move` or `Remove` succeeded.
    Done,
    /// The operation failed.
    Failed,
}

/// A directory whose entries are being flattened, and the names of those
/// entries not yet visited.
#[derive(Debug)]
pub struct Frame {
    pub dir: Vec<String>,
    pub todo: Vec<String>,
}

/// The traversal state: a stack of open directories, the root at the bottom,
/// and the request that waits for its answer.
pub struct Flattener {
    frames: Vec<Frame>,
    pending: Request,
}

/// A request, with its path as names.
pub enum RequestView {
    Inspect(PathView),
    List(PathView),
    Move(PathView),
    Remove(PathView),
    Finish(Outcome),
}

/// An answer, with its names as character sequences.
pub enum EventView {
    Inspected { root_is_file: bool, node_is_file: bool },
    Listed(Seq<Seq<char>>),
    Done,
    Failed,
}

/// An open directory and its entries yet to visit.
pub struct FrameView {
    pub dir: PathView,
    pub todo: Seq<Seq<char>>,
}

/// The machine's state: its open directories, innermost last, and the
/// request that waits for its answer.
pub struct FlattenerView {
    pub frames: Seq<FrameView>,
    pub pending: RequestView,
}

impl View for Request {
    type V = RequestView;

    open spec fn view(&self) -> RequestView {
        match self {
            Request::Inspect { node } => RequestView::Inspect(path_view(node@)),
            Request::List { dir } => RequestView::List(path_view(dir@)),
            Request::Move { file } => RequestView::Move(path_view(file@)),
            Request::Remove { dir } => RequestView::Remove(path_view(dir@)),
            Request::Finish { outcome } => RequestView::Finish(*outcome),
        }
    }
}

impl View for Event {
    type V = EventView;

    open spec fn view(&self) -> EventView {
        match self {
            Event::Inspected { root_is_file, node_is_file } => EventView::Inspected {
                root_is_file: *root_is_file,
                node_is_file: *node_is_file,
            },
            Event::Listed { names } => EventView::Listed(path_view(names@)),
            Event::Done => EventView::Done,
            Event::Failed => EventView::Failed,
        }
    }
}

impl View for Frame {
    type V = FrameView;

    open spec fn view(&self) -> FrameView {
        FrameView { dir: path_view(self.dir@), todo: path_view(self.todo@) }
    }
}

/// The stack of open directories as views.
pub open spec fn frames_view(frames: Seq<Frame>) -> Seq<FrameView> {
    frames.map_values(|f: Frame| f@)
}

impl View for Flattener {
    type V = FlattenerView;

    closed spec fn view(&self) -> FlattenerView {
        FlattenerView { frames: frames_view(self.frames@), pending: self.pending@ }
    }
}

/// The state in which every run begins: nothing is open yet, and the root
/// itself is inspected first.
pub open spec fn start() -> FlattenerView {
    FlattenerView { frames: Seq::empty(), pending: RequestView::Inspect(Seq::empty()) }
}

/// After a node is dealt with: visit the next unvisited entry of the
/// innermost open directory; if there is none, close that directory, which
/// is removed unless it is the root, whose closing ends the run.
pub open spec fn advance(frames: Seq<FrameView>) -> FlattenerView {
    if frames.len() == 0 {
        FlattenerView { frames, pending: RequestView::Finish(Outcome::Flattened) }
    } else {
        let top = frames.last();
        if top.todo.len() > 0 {
            FlattenerView {
                frames: frames.drop_last().push(FrameView { dir: top.dir, todo: top.todo.drop_last() }),
                pending: RequestView::Inspect(top.dir.push(top.todo.last())),
            }
        } else if top.dir.len() == 0 {
            FlattenerView { frames: frames.drop_last(), pending: RequestView::Finish(Outcome::Flattened) }
        } else {
            FlattenerView { frames: frames.drop_last(), pending: RequestView::Remove(top.dir) }
        }
    }
}

/// The state after a run ends with outcome `o`.
pub open spec fn finish(s: FlattenerView, o: Outcome) -> FlattenerView {
    FlattenerView { frames: s.frames, pending: RequestView::Finish(o) }
}

/// One transition: the state after the answer `e` to the pending request.
/// A failure ends the run; an answer that does not fit the request is
/// ignored; a finished run stays finished.
pub open spec fn next(s: FlattenerView, e: EventView) -> FlattenerView {
    match s.pending {
        RequestView::Finish(_) => s,
        RequestView::Inspect(p) => match e {
            EventView::Failed => finish(s, Outcome::IoFailed),
            EventView::Inspected { root_is_file, node_is_file } => {
                if root_is_file {
                    finish(s, Outcome::NotADirectory)
                } else if !node_is_file {
                    FlattenerView { frames: s.frames, pending: RequestView::List(p) }
                } else if p.len() == 1 {
                    advance(s.frames)
                } else {
                    FlattenerView { frames: s.frames, pending: RequestView::Move(p) }
                }
            },
            _ => s,
        },
        RequestView::List(p) => match e {
            EventView::Failed => finish(s, Outcome::IoFailed),
            EventView::Listed(names) => advance(s.frames.push(FrameView { dir: p, todo: names })),
            _ => s,
        },
        RequestView::Move(_) => match e {
            EventView::Failed => finish(s, Outcome::IoFailed),
            EventView::Done => advance(s.frames),
            _ => s,
        },
        RequestView::Remove(_) => match e {
            EventView::Failed => finish(s, Outcome::IoFailed),
            EventView::Done => advance(s.frames),
            _ => s,
        },
    }
}

/// Begins flattening the root: the returned machine asks first whether the
/// root is a directory.
pub fn flatten() -> (r: Flattener)
    ensures
        r@ == start(),
{
    let r = Flattener { frames: Vec::new(), pending: Request::Inspect { node: Vec::new() } };
    assert(r@.frames =~= Seq::<FrameView>::empty());
    assert(path_view(Seq::<String>::empty()) =~= Seq::<Seq<char>>::empty());
    r
}

/// Copies a path component by component.
fn copy_path(p: &Vec<String>) -> (r: Vec<String>)
    ensures
        path_view(r@) == path_view(p@),
{
    let mut r: Vec<String> = Vec::new();
    let mut i: usize = 0;
    while i < p.len()
        invariant
            i <= p@.len(),
            r@.len() == i,
            forall|j: int| 0 <= j < i ==> #[trigger] r@[j]@ == p@[j]@,
        decreases p@.len() - i,
    {
        r.push(p[i].clone());
        i = i + 1;
    }
    assert(path_view(r@) =~= path_view(p@));
    r
}

impl Flattener {
    /// The request that waits for its answer.
    pub fn pending(&self) -> (r: &Request)
        ensures
            r@ == self@.pending,
    {
        &self.pending
    }

    /// Whether the run has ended, and how.
    pub fn outcome(&self) -> (r: Option<Outcome>)
        ensures
            r == (match self@.pending {
                RequestView::Finish(o) => Some(o),
                _ => None,
            }),
    {
        match &self.pending {
            Request::Finish { outcome } => Some(*outcome),
            _ => None,
        }
    }

    /// Moves on once the node in flight is dealt with.
    fn proceed(&mut self)
        ensures
            final(self)@ == advance(old(self)@.frames),
    {
        let ghost frames0 = self.frames@;
        match self.frames.pop() {
            None => {
                self.pending = Request::Finish { outcome: Outcome::Flattened };
            },
            Some(mut top) => {
                assert(frames_view(self.frames@) =~= frames_view(frames0).drop_last());
                let ghost todo0 = top.todo@;
                match top.todo.pop() {
                    Some(name) => {
                        let mut node = copy_path(&top.dir);
                        node.push(name);
                        assert(path_view(node@) =~= path_view(top.dir@).push(name@));
                        assert(path_view(top.todo@) =~= path_view(todo0).drop_last());
                        self.frames.push(top);
                        assert(frames_view(self.frames@) =~= frames_view(frames0).drop_last().push(top@));
                        self.pending = Request::Inspect { node };
                    },
                    None => {
                        if top.dir.len() == 0 {
                            self.pending = Request::Finish { outcome: Outcome::Flattened };
                        } else {
                            self.pending = Request::Remove { dir: top.dir };
                        }
                    },
                }
            },
        }
    }

    /// Takes the answer to the pending request and moves to the next state.
    pub fn step(&mut self, event: Event)
        ensures
            final(self)@ == next(old(self)@, event@),
    {
        let mut pending = Request::Finish { outcome: Outcome::Flattened };
        std::mem::swap(&mut pending, &mut self.pending);
        match pending {
            Request::Finish { outcome } => {
                self.pending = Request::Finish { outcome };
            },
            Request::Inspect { node } => match event {
                Event::Failed => {
                    self.pending = Request::Finish { outcome: Outcome::IoFailed };
                },
                Event::Inspected { root_is_file, node_is_file } => {
                    if root_is_file {
                        self.pending = Request::Finish { outcome: Outcome::NotADirectory };
                    } else if !node_is_file {
                        self.pending = Request::List { dir: node };
                    } else if node.len() == 1 {
                        self.proceed();
                    } else {
                        self.pending = Request::Move { file: node };
                    }
                },
                _ => {
                    self.pending = Request::Inspect { node };
                },
            },
            Request::List { dir } => match event {
                Event::Failed => {
                    self.pending = Request::Finish { outcome: Outcome::IoFailed };
                },
                Event::Listed { names } => {
                    let ghost frames0 = self.frames@;
                    let frame = Frame { dir, todo: names };
                    self.frames.push(frame);
                    assert(frames_view(self.frames@) =~= frames_view(frames0).push(frame@));
                    self.proceed();
                },
                _ => {
                    self.pending = Request::List { dir };
                },
            },
            Request::Move { file } => match event {
                Event::Failed => {
                    self.pending = Request::Finish { outcome: Outcome::IoFailed };
                },
                Event::Done => {
                    self.proceed();
                },
                _ => {
                    self.pending = Request::Move { file };
                },
            },
            Request::Remove { dir } => match event {
                Event::Failed => {
                    self.pending = Request::Finish { outcome: Outcome::IoFailed };
                },
                Event::Done => {
                    self.proceed();
                },
                _ => {
                    self.pending = Request::Remove { dir };
                },
            },
        }
    }
}

} // verus!
