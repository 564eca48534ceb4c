use vstd::prelude::*;
use crate::machine::{advance, next, start, FlattenerView, FrameView, EventView, Outcome, PathView, RequestView};
use crate::model::{answers, children, flat, is_dir, is_file, root, well_formed, FsView};

verus! {

/// One step of a run: state `i + 1` follows from state `i` and the `i`-th
/// answer, which the filesystem `fss[i]` gave, leaving it as `fss[i + 1]`.
pub open spec fn step_holds(
    states: Seq<FlattenerView>,
    events: Seq<EventView>,
    fss: Seq<FsView>,
    i: int,
) -> bool {
    &&& states[i + 1] == next(states[i], events[i])
    &&& answers(fss[i], states[i].pending, events[i], fss[i + 1])
}

/// A run of the machine against a filesystem that starts as the tree
/// `fss[0]`: the states it goes through, the answers it gets, and the
/// filesystem after each of them.
pub open spec fn is_run(states: Seq<FlattenerView>, events: Seq<EventView>, fss: Seq<FsView>) -> bool {
    &&& states.len() == events.len() + 1
    &&& fss.len() == states.len()
    &&& states[0] == start()
    &&& well_formed(fss[0])
    &&& forall|i: int| 0 <= i < events.len() ==> #[trigger] step_holds(states, events, fss, i)
}

/// Every file of `fs0` is still in its place in `fs`, or a file of its name
/// sits directly in the root.
pub open spec fn files_kept(fs0: FsView, fs: FsView) -> bool {
    forall|q: PathView| #[trigger] is_file(fs0, q) && q.len() > 0 ==> is_file(fs, q) || is_file(fs, seq![q.last()])
}

spec fn strictly_under(d: PathView, q: PathView) -> bool {
    d.len() < q.len() && q.subrange(0, d.len() as int) == d
}

/// `q` lies below an entry of an open directory that is yet to be visited.
spec fn pending_under(frames: Seq<FrameView>, q: PathView) -> bool {
    exists|i: int|
        0 <= i < frames.len() && #[trigger] strictly_under(frames[i].dir, q) && frames[i].todo.contains(
            q[frames[i].dir.len() as int],
        )
}

spec fn is_open(frames: Seq<FrameView>, q: PathView) -> bool {
    exists|i: int| 0 <= i < frames.len() && #[trigger] frames[i].dir == q
}

spec fn in_flight(r: RequestView) -> Option<PathView> {
    match r {
        RequestView::Inspect(p) => Some(p),
        RequestView::List(p) => Some(p),
        RequestView::Move(p) => Some(p),
        RequestView::Remove(p) => Some(p),
        RequestView::Finish(_) => None,
    }
}

/// Path `q` of `fs` is a file in the root, or the run still has work on it.
spec fn accounted(frames: Seq<FrameView>, flight: Option<PathView>, fs: FsView, q: PathView) -> bool {
    ||| pending_under(frames, q)
    ||| is_open(frames, q)
    ||| (flight matches Some(c) && (c == q || strictly_under(c, q)))
    ||| (q.len() == 1 && fs[q])
}

spec fn all_accounted(frames: Seq<FrameView>, flight: Option<PathView>, fs: FsView) -> bool {
    forall|q: PathView| #[trigger] fs.contains_key(q) && q.len() >= 1 ==> accounted(frames, flight, fs, q)
}

spec fn depths(frames: Seq<FrameView>) -> bool {
    forall|i: int| 0 <= i < frames.len() ==> (#[trigger] frames[i]).dir.len() == i
}

spec fn shape(s: FlattenerView) -> bool {
    match s.pending {
        RequestView::Inspect(p) => p.len() == s.frames.len(),
        RequestView::List(p) => p.len() == s.frames.len(),
        RequestView::Move(p) => p.len() == s.frames.len() && p.len() >= 2,
        RequestView::Remove(p) => p.len() == s.frames.len() && p.len() > 0,
        RequestView::Finish(_) => true,
    }
}

spec fn inv(s: FlattenerView, fs: FsView, fs0: FsView) -> bool {
    &&& well_formed(fs)
    &&& depths(s.frames)
    &&& shape(s)
    &&& s.frames.len() > 0 ==> is_dir(fs, root())
    &&& is_dir(fs0, root()) ==> is_dir(fs, root())
    &&& files_kept(fs0, fs)
    &&& !(s.pending is Finish) ==> all_accounted(s.frames, in_flight(s.pending), fs)
    &&& s.pending == RequestView::Finish(Outcome::Flattened) ==> flat(fs) && is_dir(fs, root())
}

/// In a tree, every proper prefix of an existing path is a directory.
proof fn lemma_prefix_is_dir(fs: FsView, q: PathView, k: int)
    requires
        well_formed(fs),
        fs.contains_key(q),
        0 <= k < q.len(),
    ensures
        is_dir(fs, q.subrange(0, k)),
    decreases q.len(),
{
    assert(is_dir(fs, q.drop_last()));
    if k < q.len() - 1 {
        lemma_prefix_is_dir(fs, q.drop_last(), k);
        assert(q.drop_last().subrange(0, k) =~= q.subrange(0, k));
    } else {
        assert(q.drop_last() =~= q.subrange(0, k));
    }
}

/// The prefix of `q` one longer than `d` is an entry of `d`.
proof fn lemma_entry_of(fs: FsView, d: PathView, q: PathView)
    requires
        well_formed(fs),
        fs.contains_key(q),
        strictly_under(d, q),
    ensures
        children(fs, d).contains(q[d.len() as int]),
{
    let e = d.push(q[d.len() as int]);
    assert(e =~= q.subrange(0, d.len() as int + 1));
    if d.len() + 1 < q.len() {
        lemma_prefix_is_dir(fs, q, d.len() as int + 1);
    } else {
        assert(e =~= q);
    }
}

proof fn lemma_advance(frames: Seq<FrameView>, fs: FsView, fs0: FsView)
    requires
        well_formed(fs),
        depths(frames),
        frames.len() > 0,
        is_dir(fs, root()),
        files_kept(fs0, fs),
        all_accounted(frames, None, fs),
    ensures
        inv(advance(frames), fs, fs0),
{
    let s2 = advance(frames);
    let k = frames.len() - 1;
    let top = frames.last();
    assert(top.dir.len() == k);
    assert(depths(s2.frames)) by {
        assert forall|i: int| 0 <= i < s2.frames.len() implies (#[trigger] s2.frames[i]).dir.len() == i by {
            if i < k {
                assert(s2.frames[i] == frames[i]);
            }
        }
    }
    if top.todo.len() > 0 {
        let n = top.todo.last();
        let c = top.dir.push(n);
        assert forall|q: PathView| #[trigger] fs.contains_key(q) && q.len() >= 1 implies accounted(
            s2.frames,
            in_flight(s2.pending),
            fs,
            q,
        ) by {
            if pending_under(frames, q) {
                let i = choose|i: int|
                    0 <= i < frames.len() && #[trigger] strictly_under(frames[i].dir, q)
                        && frames[i].todo.contains(q[frames[i].dir.len() as int]);
                if i < k {
                    assert(s2.frames[i] == frames[i]);
                    assert(pending_under(s2.frames, q));
                } else {
                    let x = q[k];
                    if x == n {
                        assert(q.subrange(0, k + 1) =~= c);
                        if q.len() == k + 1 {
                            assert(q =~= c);
                        } else {
                            assert(strictly_under(c, q));
                        }
                    } else {
                        let j = choose|j: int| 0 <= j < top.todo.len() && top.todo[j] == x;
                        assert(s2.frames[k].todo[j] == x);
                        assert(s2.frames[k].todo.contains(x));
                        assert(strictly_under(s2.frames[k].dir, q));
                        assert(pending_under(s2.frames, q));
                    }
                }
            } else if is_open(frames, q) {
                let i = choose|i: int| 0 <= i < frames.len() && #[trigger] frames[i].dir == q;
                assert(s2.frames[i].dir == q);
            }
        }
    } else if top.dir.len() == 0 {
        assert(k == 0);
        assert forall|q: PathView| #[trigger] fs.contains_key(q) implies q.len() <= 1 && (q.len() == 1
            ==> fs[q]) by {
            if q.len() >= 1 {
                assert(accounted(frames, None, fs, q));
                if pending_under(frames, q) {
                    let i = choose|i: int|
                        0 <= i < frames.len() && #[trigger] strictly_under(frames[i].dir, q)
                            && frames[i].todo.contains(q[frames[i].dir.len() as int]);
                    assert(i == 0);
                    assert(false);
                }
                if is_open(frames, q) {
                    let i = choose|i: int| 0 <= i < frames.len() && #[trigger] frames[i].dir == q;
                    assert(false);
                }
            }
        }
    } else {
        assert forall|q: PathView| #[trigger] fs.contains_key(q) && q.len() >= 1 implies accounted(
            s2.frames,
            in_flight(s2.pending),
            fs,
            q,
        ) by {
            if pending_under(frames, q) {
                let i = choose|i: int|
                    0 <= i < frames.len() && #[trigger] strictly_under(frames[i].dir, q)
                        && frames[i].todo.contains(q[frames[i].dir.len() as int]);
                assert(i < k);
                assert(s2.frames[i] == frames[i]);
                assert(pending_under(s2.frames, q));
            } else if is_open(frames, q) {
                let i = choose|i: int| 0 <= i < frames.len() && #[trigger] frames[i].dir == q;
                if i < k {
                    assert(s2.frames[i] == frames[i]);
                }
            }
        }
    }
}

/// Each answer the filesystem may give keeps the invariant.
proof fn lemma_step(s: FlattenerView, e: EventView, fs: FsView, fs2: FsView, fs0: FsView)
    requires
        inv(s, fs, fs0),
        answers(fs, s.pending, e, fs2),
    ensures
        inv(next(s, e), fs2, fs0),
{
    let frames = s.frames;
    match s.pending {
        RequestView::Finish(_) => {},
        RequestView::Inspect(p) => {
            if let EventView::Inspected { root_is_file, node_is_file } = e {
                if !root_is_file && node_is_file {
                    if p.len() == 0 {
                        assert(p =~= root());
                    }
                    if p.len() == 1 {
                        assert forall|q: PathView| #[trigger] fs.contains_key(q) && q.len() >= 1 implies accounted(
                            frames,
                            None,
                            fs,
                            q,
                        ) by {
                            assert(accounted(frames, Some(p), fs, q));
                            if strictly_under(p, q) {
                                lemma_prefix_is_dir(fs, q, 1);
                            }
                        }
                        lemma_advance(frames, fs, fs0);
                    }
                }
            }
        },
        RequestView::List(p) => {
            if let EventView::Listed(names) = e {
                let frames2 = frames.push(FrameView { dir: p, todo: names });
                let k = frames.len() as int;
                if k == 0 {
                    assert(p =~= root());
                }
                assert(depths(frames2)) by {
                    assert forall|i: int| 0 <= i < frames2.len() implies (#[trigger] frames2[i]).dir.len() == i by {
                        if i < k {
                            assert(frames2[i] == frames[i]);
                        }
                    }
                }
                assert forall|q: PathView| #[trigger] fs.contains_key(q) && q.len() >= 1 implies accounted(
                    frames2,
                    None,
                    fs,
                    q,
                ) by {
                    assert(accounted(frames, Some(p), fs, q));
                    if pending_under(frames, q) {
                        let i = choose|i: int|
                            0 <= i < frames.len() && #[trigger] strictly_under(frames[i].dir, q)
                                && frames[i].todo.contains(q[frames[i].dir.len() as int]);
                        assert(frames2[i] == frames[i]);
                        assert(pending_under(frames2, q));
                    } else if is_open(frames, q) {
                        let i = choose|i: int| 0 <= i < frames.len() && #[trigger] frames[i].dir == q;
                        assert(frames2[i] == frames[i]);
                    } else if q == p {
                        assert(frames2[k].dir == q);
                    } else if strictly_under(p, q) {
                        lemma_entry_of(fs, p, q);
                        assert(names.to_set().contains(q[k]));
                        assert(frames2[k].todo.contains(q[k]));
                        assert(strictly_under(frames2[k].dir, q));
                        assert(pending_under(frames2, q));
                    }
                }
                lemma_advance(frames2, fs, fs0);
            }
        },
        RequestView::Move(p) => {
            if e is Done {
                let t = seq![p.last()];
                assert(well_formed(fs2)) by {
                    assert forall|q: PathView| #[trigger] fs2.contains_key(q) && q.len() > 0 implies is_dir(
                        fs2,
                        q.drop_last(),
                    ) by {
                        if q == t {
                            assert(q.drop_last() =~= root());
                        } else {
                            assert(fs.contains_key(q));
                            assert(is_dir(fs, q.drop_last()));
                        }
                    }
                }
                assert(files_kept(fs0, fs2)) by {
                    assert forall|q: PathView| #[trigger] is_file(fs0, q) && q.len() > 0 implies is_file(fs2, q)
                        || is_file(fs2, seq![q.last()]) by {
                        assert(files_kept(fs0, fs));
                        if q == p {
                            assert(is_file(fs2, t));
                        }
                    }
                }
                assert(is_dir(fs2, root()));
                assert forall|q: PathView| #[trigger] fs2.contains_key(q) && q.len() >= 1 implies accounted(
                    frames,
                    None,
                    fs2,
                    q,
                ) by {
                    if q != t {
                        assert(fs.contains_key(q));
                        assert(accounted(frames, Some(p), fs, q));
                        if strictly_under(p, q) {
                            lemma_prefix_is_dir(fs, q, p.len() as int);
                        }
                    }
                }
                lemma_advance(frames, fs2, fs0);
            }
        },
        RequestView::Remove(d) => {
            if e is Done {
                assert(well_formed(fs2)) by {
                    assert forall|q: PathView| #[trigger] fs2.contains_key(q) && q.len() > 0 implies is_dir(
                        fs2,
                        q.drop_last(),
                    ) by {
                        assert(fs.contains_key(q));
                        if q.drop_last() == d {
                            assert(q.drop_last().push(q.last()) =~= q);
                            assert(children(fs, d).contains(q.last()));
                        }
                    }
                }
                assert(is_dir(fs2, root())) by {
                    assert(d != root());
                }
                assert forall|q: PathView| #[trigger] fs2.contains_key(q) && q.len() >= 1 implies accounted(
                    frames,
                    None,
                    fs2,
                    q,
                ) by {
                    assert(fs.contains_key(q));
                    assert(accounted(frames, Some(d), fs, q));
                    if strictly_under(d, q) {
                        lemma_entry_of(fs, d, q);
                    }
                }
                lemma_advance(frames, fs2, fs0);
            }
        },
    }
}

proof fn lemma_run_inv(states: Seq<FlattenerView>, events: Seq<EventView>, fss: Seq<FsView>, k: int)
    requires
        is_run(states, events, fss),
        0 <= k < states.len(),
    ensures
        inv(states[k], fss[k], fss[0]),
    decreases k,
{
    if k == 0 {
        assert forall|q: PathView| #[trigger] fss[0].contains_key(q) && q.len() >= 1 implies accounted(
            start().frames,
            Some(root()),
            fss[0],
            q,
        ) by {
            assert(q.subrange(0, 0) =~= root());
        }
    } else {
        lemma_run_inv(states, events, fss, k - 1);
        assert(step_holds(states, events, fss, k - 1));
        lemma_step(states[k - 1], events[k - 1], fss[k - 1], fss[k], fss[0]);
    }
}

/// A run that ends by reporting success leaves a flat tree: every file
/// directly in the root, which is still a directory, and no directory below
/// it. Each file the tree held at the start has a file of its name in the
/// root.
pub proof fn lemma_flattened_is_flat(states: Seq<FlattenerView>, events: Seq<EventView>, fss: Seq<FsView>)
    requires
        is_run(states, events, fss),
        states.last().pending == RequestView::Finish(Outcome::Flattened),
    ensures
        flat(fss.last()),
        is_dir(fss.last(), root()),
        forall|q: PathView| #[trigger] is_file(fss[0], q) && q.len() > 0 ==> is_file(fss.last(), seq![q.last()]),
{
    let n = states.len() - 1;
    lemma_run_inv(states, events, fss, n);
    assert forall|q: PathView| #[trigger] is_file(fss[0], q) && q.len() > 0 implies is_file(
        fss.last(),
        seq![q.last()],
    ) by {
        if is_file(fss.last(), q) && q.len() == 1 {
            assert(q =~= seq![q.last()]);
        }
    }
}

/// The root is never removed: if it is a directory when a run starts, it is
/// one after every step, whether the run succeeds or fails.
pub proof fn lemma_root_kept(states: Seq<FlattenerView>, events: Seq<EventView>, fss: Seq<FsView>, k: int)
    requires
        is_run(states, events, fss),
        is_dir(fss[0], root()),
        0 <= k < fss.len(),
    ensures
        is_dir(fss[k], root()),
{
    lemma_run_inv(states, events, fss, k);
}

/// A root that is a regular file is refused at once: the run ends with
/// `NotADirectory` after its first answer and the filesystem never changes.
pub proof fn lemma_file_root_refused(
    states: Seq<FlattenerView>,
    events: Seq<EventView>,
    fss: Seq<FsView>,
    k: int,
)
    requires
        is_run(states, events, fss),
        is_file(fss[0], root()),
        0 <= k < fss.len(),
    ensures
        fss[k] == fss[0],
        k > 0 ==> states[k].pending == RequestView::Finish(Outcome::NotADirectory),
    decreases k,
{
    if k > 0 {
        lemma_file_root_refused(states, events, fss, k - 1);
        assert(step_holds(states, events, fss, k - 1));
    }
}

/// On a flat tree the run only inspects and lists, and stays at the root.
spec fn idle_inv(s: FlattenerView, fs: FsView, fs0: FsView) -> bool {
    &&& fs == fs0
    &&& s.frames.len() <= 1
    &&& s.frames.len() == 1 ==> {
        &&& s.frames[0].dir == root()
        &&& forall|j: int| 0 <= j < s.frames[0].todo.len() ==> is_file(fs0, seq![#[trigger] s.frames[0].todo[j]])
    }
    &&& match s.pending {
        RequestView::Inspect(p) => (s.frames.len() == 0 && p == root()) || (s.frames.len() == 1 && p.len() == 1
            && is_file(fs0, p)),
        RequestView::List(p) => s.frames.len() == 0 && p == root(),
        RequestView::Move(_) => false,
        RequestView::Remove(_) => false,
        RequestView::Finish(_) => true,
    }
}

proof fn lemma_idle_advance(frames: Seq<FrameView>, fs0: FsView)
    requires
        frames.len() == 1,
        frames[0].dir == root(),
        forall|j: int| 0 <= j < frames[0].todo.len() ==> is_file(fs0, seq![#[trigger] frames[0].todo[j]]),
    ensures
        idle_inv(advance(frames), fs0, fs0),
{
    let top = frames[0];
    if top.todo.len() > 0 {
        let s2 = advance(frames);
        assert(root().push(top.todo.last()) =~= seq![top.todo.last()]);
        assert(s2.frames[0].todo =~= top.todo.drop_last());
        assert(forall|j: int| 0 <= j < s2.frames[0].todo.len() ==> s2.frames[0].todo[j] == top.todo[j]);
    }
}

proof fn lemma_idle_step(s: FlattenerView, e: EventView, fs: FsView, fs2: FsView)
    requires
        idle_inv(s, fs, fs),
        flat(fs),
        is_dir(fs, root()),
        answers(fs, s.pending, e, fs2),
    ensures
        idle_inv(next(s, e), fs2, fs),
{
    match s.pending {
        RequestView::Inspect(p) => {
            if s.frames.len() == 1 && e is Inspected {
                lemma_idle_advance(s.frames, fs);
            }
        },
        RequestView::List(p) => {
            if let EventView::Listed(names) = e {
                let frames2 = s.frames.push(FrameView { dir: p, todo: names });
                assert forall|j: int| 0 <= j < names.len() implies is_file(fs, seq![#[trigger] names[j]]) by {
                    assert(names.to_set().contains(names[j]));
                    assert(children(fs, p).contains(names[j]));
                    assert(root().push(names[j]) =~= seq![names[j]]);
                }
                assert(frames2[0].todo == names);
                lemma_idle_advance(frames2, fs);
            }
        },
        _ => {},
    }
}

/// On a tree that is flat already, a run moves nothing, removes nothing and
/// leaves the filesystem as it was, the root included.
pub proof fn lemma_flat_input_untouched(
    states: Seq<FlattenerView>,
    events: Seq<EventView>,
    fss: Seq<FsView>,
    k: int,
)
    requires
        is_run(states, events, fss),
        is_dir(fss[0], root()),
        flat(fss[0]),
        0 <= k < fss.len(),
    ensures
        fss[k] == fss[0],
        !(states[k].pending is Move),
        !(states[k].pending is Remove),
{
    lemma_idle_run(states, events, fss, k);
}

proof fn lemma_idle_run(states: Seq<FlattenerView>, events: Seq<EventView>, fss: Seq<FsView>, k: int)
    requires
        is_run(states, events, fss),
        is_dir(fss[0], root()),
        flat(fss[0]),
        0 <= k < fss.len(),
    ensures
        idle_inv(states[k], fss[k], fss[0]),
    decreases k,
{
    if k > 0 {
        lemma_idle_run(states, events, fss, k - 1);
        assert(step_holds(states, events, fss, k - 1));
        lemma_idle_step(states[k - 1], events[k - 1], fss[k - 1], fss[k]);
    }
}

/// Flattening a second time after a successful run changes nothing: no
/// file is moved again and the filesystem stays as the first run left it.
pub proof fn lemma_second_run_idle(
    states1: Seq<FlattenerView>,
    events1: Seq<EventView>,
    fss1: Seq<FsView>,
    states2: Seq<FlattenerView>,
    events2: Seq<EventView>,
    fss2: Seq<FsView>,
    k: int,
)
    requires
        is_run(states1, events1, fss1),
        states1.last().pending == RequestView::Finish(Outcome::Flattened),
        is_run(states2, events2, fss2),
        fss2[0] == fss1.last(),
        0 <= k < fss2.len(),
    ensures
        fss2[k] == fss1.last(),
        !(states2[k].pending is Move),
{
    lemma_flattened_is_flat(states1, events1, fss1);
    lemma_flat_input_untouched(states2, events2, fss2, k);
}

/// A run that follows an earlier one, which may have stopped part way, and
/// succeeds, ends where one successful run from the first tree ends: the
/// tree is flat, the root is kept, and every file of the first tree has a
/// file of its name in the root.
pub proof fn lemma_rerun_converges(
    states1: Seq<FlattenerView>,
    events1: Seq<EventView>,
    fss1: Seq<FsView>,
    states2: Seq<FlattenerView>,
    events2: Seq<EventView>,
    fss2: Seq<FsView>,
)
    requires
        is_run(states1, events1, fss1),
        is_run(states2, events2, fss2),
        fss2[0] == fss1.last(),
        states2.last().pending == RequestView::Finish(Outcome::Flattened),
    ensures
        flat(fss2.last()),
        is_dir(fss2.last(), root()),
        forall|q: PathView| #[trigger] is_file(fss1[0], q) && q.len() > 0 ==> is_file(fss2.last(), seq![q.last()]),
{
    lemma_run_inv(states1, events1, fss1, states1.len() - 1);
    lemma_flattened_is_flat(states2, events2, fss2);
    assert forall|q: PathView| #[trigger] is_file(fss1[0], q) && q.len() > 0 implies is_file(
        fss2.last(),
        seq![q.last()],
    ) by {
        let t = seq![q.last()];
        if is_file(fss1.last(), t) {
            assert(is_file(fss2[0], t) && t.len() > 0);
            assert(seq![t.last()] =~= t);
        } else {
            assert(is_file(fss2[0], q));
        }
    }
}

} // verus!
