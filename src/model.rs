use vstd::prelude::*;
use crate::machine::{EventView, PathView, RequestView};

verus! {

/// A filesystem below the root: each existing path maps to whether it is a
/// regular file (`true`) or a directory (`false`).
pub type FsView = Map<PathView, bool>;

pub open spec fn root() -> PathView {
    Seq::empty()
}

pub open spec fn is_file(fs: FsView, p: PathView) -> bool {
    fs.contains_key(p) && fs[p]
}

pub open spec fn is_dir(fs: FsView, p: PathView) -> bool {
    fs.contains_key(p) && !fs[p]
}

/// The names of the entries of `p`.
pub open spec fn children(fs: FsView, p: PathView) -> Set<Seq<char>> {
    Set::new(|n: Seq<char>| fs.contains_key(p.push(n)))
}

/// A tree: every path but the root sits in a directory that exists.
pub open spec fn well_formed(fs: FsView) -> bool {
    forall|q: PathView| #[trigger] fs.contains_key(q) && q.len() > 0 ==> is_dir(fs, q.drop_last())
}

/// Flat: nothing below the root but regular files directly in it.
pub open spec fn flat(fs: FsView) -> bool {
    forall|q: PathView| #[trigger] fs.contains_key(q) ==> q.len() <= 1 && (q.len() == 1 ==> fs[q])
}

/// Whether the filesystem `fs` may answer request `r` with `e` and be `fs2`
/// afterwards. Any operation but inspecting may fail, and leaves the
/// filesystem as it was when it does. A listing gives every entry's name.
/// A move succeeds only on a file whose new place in the root is no
/// directory; a file already there is replaced. A removal succeeds only on
/// an empty directory.
pub open spec fn answers(fs: FsView, r: RequestView, e: EventView, fs2: FsView) -> bool {
    match r {
        RequestView::Inspect(p) => {
            &&& fs2 == fs
            &&& e == (EventView::Inspected { root_is_file: is_file(fs, root()), node_is_file: is_file(fs, p) })
        },
        RequestView::List(p) => {
            &&& fs2 == fs
            &&& match e {
                EventView::Failed => true,
                EventView::Listed(names) => is_dir(fs, p) && names.to_set() == children(fs, p),
                _ => false,
            }
        },
        RequestView::Move(p) => match e {
            EventView::Failed => fs2 == fs,
            EventView::Done => {
                &&& p.len() > 0
                &&& is_file(fs, p)
                &&& !is_dir(fs, seq![p.last()])
                &&& fs2 == fs.remove(p).insert(seq![p.last()], true)
            },
            _ => false,
        },
        RequestView::Remove(p) => match e {
            EventView::Failed => fs2 == fs,
            EventView::Done => {
                &&& is_dir(fs, p)
                &&& children(fs, p).is_empty()
                &&& fs2 == fs.remove(p)
            },
            _ => false,
        },
        RequestView::Finish(_) => fs2 == fs,
    }
}

} // verus!
