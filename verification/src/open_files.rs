//! The queue of files to open: filled once when the process starts, handed
//! to the front-end once, and empty from then on.
//!
//! The queue itself is plain data. Whoever shares it between callers keeps it
//! behind a lock and calls [`take_open_files`] while holding that lock: the
//! exclusive borrow that the function asks for is the exclusive access, and
//! copying and clearing is all that happens under it.

use vstd::prelude::*;

verus! {

/// The paths that wait to be opened, in the order of the launch arguments
/// they came from.
pub struct OpenFiles {
    files: Vec<String>,
}

impl View for OpenFiles {
    type V = Seq<Seq<char>>;

    /// The paths held, first to last.
    closed spec fn view(&self) -> Seq<Seq<char>> {
        self.files.deep_view()
    }
}

/// What one take hands out of a queue that holds `held`: all of it.
pub open spec fn taken(held: Seq<Seq<char>>) -> Seq<Seq<char>> {
    held
}

/// What one take leaves in a queue that held `held`: nothing.
pub open spec fn left_after_take(held: Seq<Seq<char>>) -> Seq<Seq<char>> {
    Seq::empty()
}

/// What the take after `earlier` takes in a row hands out, on a queue that
/// held `held` before the first of them and was not filled in between.
pub open spec fn nth_taken(held: Seq<Seq<char>>, earlier: nat) -> Seq<Seq<char>>
    decreases earlier,
{
    if earlier == 0 {
        taken(held)
    } else {
        nth_taken(left_after_take(held), (earlier - 1) as nat)
    }
}

/// A queue that holds nothing hands out nothing, at the first take and at
/// every later one.
pub proof fn lemma_empty_queue_yields_nothing(earlier: nat)
    ensures
        nth_taken(Seq::empty(), earlier) == Seq::<Seq<char>>::empty(),
    decreases earlier,
{
    if earlier > 0 {
        lemma_empty_queue_yields_nothing((earlier - 1) as nat);
    }
}

/// The first take of a run hands out everything that the queue held, and
/// every later take of the run hands out nothing: no path is handed out twice.
pub proof fn lemma_only_first_take_yields(held: Seq<Seq<char>>, earlier: nat)
    ensures
        nth_taken(held, 0) == held,
        earlier > 0 ==> nth_taken(held, earlier) == Seq::<Seq<char>>::empty(),
{
    if earlier > 0 {
        lemma_empty_queue_yields_nothing((earlier - 1) as nat);
    }
}

impl OpenFiles {
    /// A queue that holds `files`, in their order.
    pub fn new(files: Vec<String>) -> (queue: OpenFiles)
        ensures
            queue@ == files.deep_view(),
    {
        OpenFiles { files }
    }
}

/// Takes the files to open: returns a copy of everything the queue holds, in
/// order, and leaves the queue empty.
pub fn take_open_files(state: &mut OpenFiles) -> (files: Vec<String>)
    ensures
        files.deep_view() == taken(old(state)@),
        final(state)@ == left_after_take(old(state)@),
{
    let files = state.files.clone();
    state.files.clear();
    assert(files.deep_view() =~= old(state).files.deep_view());
    assert(state.files.deep_view() =~= Seq::<Seq<char>>::empty());
    files
}

} // verus!
