//! The branch-list state machine: cursor and selection arithmetic over
//! an immutable listing, and the dispatch of input events.

use vstd::prelude::*;

use crate::record::BranchRecord;
use crate::record::RecordView;
use crate::record::views_of;

verus! {

/// One discrete input a terminal front end can hand the model.
#[derive(Clone, Copy, PartialEq, Eq, Structural)]
pub enum InputEvent {
    /// Give up without selecting (the quit key or the interrupt chord).
    Quit,
    /// Move the cursor down one row.
    Down,
    /// Move the cursor up one row.
    Up,
    /// Jump the cursor forward by one page.
    PageDown,
    /// Jump the cursor backward by one page.
    PageUp,
    /// Select the highlighted branch and finish.
    Confirm,
    /// Any other input: ignored.
    Other,
}

/// Mathematical view of the whole model state.
pub struct ModelView {
    pub branches: Seq<RecordView>,
    pub cursor: Option<usize>,
    pub page_size: usize,
    pub done: bool,
    pub confirmed: Option<Seq<char>>,
}

/// The cursor index after one step down: forward by one, wrapping to 0
/// past the last index.
pub open spec fn next_index(i: int, len: int) -> int {
    if i + 1 >= len {
        0
    } else {
        i + 1
    }
}

/// The cursor index after one step up: back by one, wrapping to the
/// last index at 0.
pub open spec fn prev_index(i: int, len: int) -> int {
    if i == 0 {
        len - 1
    } else {
        i - 1
    }
}

/// The cursor index after a page forward: ahead by `page`, clamped to
/// the last valid index — paging never wraps around.
pub open spec fn page_forward_index(i: int, page: int, len: int) -> int {
    if i + page >= len {
        len - 1
    } else {
        i + page
    }
}

/// The cursor index after a page backward: back by `page`, saturating
/// at 0 — paging never wraps around.
pub open spec fn page_backward_index(i: int, page: int) -> int {
    if i - page <= 0 {
        0
    } else {
        i - page
    }
}

/// The cursor after one step down: a no-op on an empty listing; set to
/// 0 when unset; otherwise forward with wraparound.
pub open spec fn next_cursor(cur: Option<usize>, len: nat) -> Option<usize> {
    if len == 0 {
        cur
    } else {
        match cur {
            None => Some(0usize),
            Some(i) => Some(next_index(i as int, len as int) as usize),
        }
    }
}

/// The cursor after one step up, the mirror image of [`next_cursor`].
pub open spec fn prev_cursor(cur: Option<usize>, len: nat) -> Option<usize> {
    if len == 0 {
        cur
    } else {
        match cur {
            None => Some(0usize),
            Some(i) => Some(prev_index(i as int, len as int) as usize),
        }
    }
}

/// The cursor after a page forward.
pub open spec fn page_forward_cursor(cur: Option<usize>, page: nat, len: nat) -> Option<
    usize,
> {
    if len == 0 {
        cur
    } else {
        match cur {
            None => Some(0usize),
            Some(i) => Some(page_forward_index(i as int, page as int, len as int) as usize),
        }
    }
}

/// The cursor after a page backward.
pub open spec fn page_backward_cursor(cur: Option<usize>, page: nat, len: nat) -> Option<
    usize,
> {
    if len == 0 {
        cur
    } else {
        match cur {
            None => Some(0usize),
            Some(i) => Some(page_backward_index(i as int, page as int) as usize),
        }
    }
}

/// What each model operation does to the whole state.
pub open spec fn step_quit(m: ModelView) -> ModelView {
    ModelView { done: true, ..m }
}

pub open spec fn step_next(m: ModelView) -> ModelView {
    ModelView { cursor: next_cursor(m.cursor, m.branches.len()), ..m }
}

pub open spec fn step_prev(m: ModelView) -> ModelView {
    ModelView { cursor: prev_cursor(m.cursor, m.branches.len()), ..m }
}

pub open spec fn step_page_forward(m: ModelView) -> ModelView {
    ModelView {
        cursor: page_forward_cursor(m.cursor, m.page_size as nat, m.branches.len()),
        ..m
    }
}

pub open spec fn step_page_backward(m: ModelView) -> ModelView {
    ModelView {
        cursor: page_backward_cursor(m.cursor, m.page_size as nat, m.branches.len()),
        ..m
    }
}

/// Confirming selects the highlighted branch, when one is highlighted,
/// and always finishes.
pub open spec fn step_confirm(m: ModelView) -> ModelView {
    ModelView {
        done: true,
        confirmed: match m.cursor {
            Some(i) => Some(m.branches[i as int].name),
            None => m.confirmed,
        },
        ..m
    }
}

/// The event dispatch of the interaction loop: which operation each
/// input performs; anything unrecognised leaves the state untouched.
pub open spec fn step(m: ModelView, ev: InputEvent) -> ModelView {
    match ev {
        InputEvent::Quit => step_quit(m),
        InputEvent::Down => step_next(m),
        InputEvent::Up => step_prev(m),
        InputEvent::PageDown => step_page_forward(m),
        InputEvent::PageUp => step_page_backward(m),
        InputEvent::Confirm => step_confirm(m),
        InputEvent::Other => m,
    }
}

/// Termination is one-way: once the model is done, no event undoes it.
pub proof fn lemma_done_monotone(m: ModelView, ev: InputEvent)
    requires
        m.done,
    ensures
        step(m, ev).done,
{
}

/// The listing is immutable: no event changes the branch records, only
/// the cursor and the quit/selection flags.
pub proof fn lemma_branches_immutable(m: ModelView, ev: InputEvent)
    ensures
        step(m, ev).branches == m.branches,
{
}

/// The cursor is a valid index, and stays unset exactly on an empty
/// listing.
pub open spec fn cursor_ok(m: ModelView) -> bool {
    &&& match m.cursor {
        Some(i) => i < m.branches.len(),
        None => true,
    }
    &&& (m.branches.len() == 0 ==> m.cursor is None)
}

/// The branch-list model: the ordered records, the cursor, and the
/// quit/selection flags.
pub struct App {
    branches: Vec<BranchRecord>,
    cursor: Option<usize>,
    page_size: usize,
    done: bool,
    confirmed_branch: Option<String>,
}

impl App {
    #[verifier::type_invariant]
    spec fn wf(self) -> bool {
        cursor_ok(self.model())
    }

    /// The state this value models.
    pub closed spec fn model(self) -> ModelView {
        ModelView {
            branches: views_of(self.branches@),
            cursor: self.cursor,
            page_size: self.page_size,
            done: self.done,
            confirmed: match self.confirmed_branch {
                Some(s) => Some(s@),
                None => None,
            },
        }
    }

    /// Build the model over a listing: the cursor starts on the current
    /// branch, or at the top of a non-empty listing, and is unset only
    /// when the listing is empty.
    pub fn new(branches: Vec<BranchRecord>, page_size: usize) -> (app: App)
        ensures
            app.model().branches == views_of(branches@),
            app.model().page_size == page_size,
            app.model().done == false,
            app.model().confirmed is None,
            app.model().cursor == initial_cursor(views_of(branches@)),
            cursor_ok(app.model()),
    {
        let ghost s = views_of(branches@);
        let count: usize = branches.len();
        let mut found = false;
        let mut i: usize = 0;
        while i < count && !found
            invariant
                count == branches@.len(),
                i <= count,
                s == views_of(branches@),
                found ==> i < count && s[i as int].is_current,
                forall|m: int| 0 <= m < i ==> !s[m].is_current,
            decreases count - i, 1int - (if found {
                1int
            } else {
                0int
            }),
        {
            proof {
                assert(s[i as int] == branches@[i as int]@);
            }
            if branches[i].is_current {
                found = true;
            } else {
                i = i + 1;
            }
        }
        let cursor: Option<usize> = if found {
            Some(i)
        } else if count > 0 {
            Some(0)
        } else {
            None
        };
        proof {
            if found {
                lemma_first_current(s, i as int);
            } else {
                assert(forall|m: int| 0 <= m < s.len() ==> !s[m].is_current);
                lemma_no_current(s);
            }
        }
        App { branches, cursor, page_size, done: false, confirmed_branch: None }
    }

    /// Step the cursor down one row, wrapping past the end.
    pub fn next(&mut self)
        ensures
            final(self).model() == step_next(old(self).model()),
            cursor_ok(final(self).model()),
    {
        proof {
            use_type_invariant(&*self);
        }
        if self.branches.len() == 0 {
            return ;
        }
        let len = self.branches.len();
        let i: usize = match self.cursor {
            Some(i) => {
                if i >= len - 1 {
                    0
                } else {
                    i + 1
                }
            },
            None => 0,
        };
        self.cursor = Some(i);
    }

    /// Step the cursor up one row, wrapping past the start.
    pub fn previous(&mut self)
        ensures
            final(self).model() == step_prev(old(self).model()),
            cursor_ok(final(self).model()),
    {
        proof {
            use_type_invariant(&*self);
        }
        if self.branches.len() == 0 {
            return ;
        }
        let len = self.branches.len();
        let i: usize = match self.cursor {
            Some(i) => {
                if i == 0 {
                    len - 1
                } else {
                    i - 1
                }
            },
            None => 0,
        };
        self.cursor = Some(i);
    }

    /// Jump the cursor forward a page, clamped to the last index.
    pub fn next_page(&mut self)
        ensures
            final(self).model() == step_page_forward(old(self).model()),
            cursor_ok(final(self).model()),
    {
        proof {
            use_type_invariant(&*self);
        }
        if self.branches.len() == 0 {
            return ;
        }
        let len = self.branches.len();
        let i: usize = match self.cursor {
            Some(i) => {
                if self.page_size >= len - i {
                    len - 1
                } else {
                    i + self.page_size
                }
            },
            None => 0,
        };
        self.cursor = Some(i);
    }

    /// Jump the cursor backward a page, saturating at 0.
    pub fn prev_page(&mut self)
        ensures
            final(self).model() == step_page_backward(old(self).model()),
            cursor_ok(final(self).model()),
    {
        proof {
            use_type_invariant(&*self);
        }
        if self.branches.len() == 0 {
            return ;
        }
        let i: usize = match self.cursor {
            Some(i) => {
                if i >= self.page_size {
                    i - self.page_size
                } else {
                    0
                }
            },
            None => 0,
        };
        self.cursor = Some(i);
    }

    /// Finish without selecting.
    pub fn quit(&mut self)
        ensures
            final(self).model() == step_quit(old(self).model()),
            cursor_ok(final(self).model()),
    {
        proof {
            use_type_invariant(&*self);
        }
        self.done = true;
    }

    /// Select the highlighted branch, when one is highlighted, and
    /// finish either way: confirming an empty listing only quits.
    pub fn confirm(&mut self)
        ensures
            final(self).model() == step_confirm(old(self).model()),
            cursor_ok(final(self).model()),
    {
        proof {
            use_type_invariant(&*self);
        }
        match self.cursor {
            Some(i) => {
                let name = self.branches[i].name.clone();
                self.confirmed_branch = Some(name);
                proof {
                    assert(self.model().branches[i as int] == self.branches@[i as int]@);
                }
            },
            None => {},
        }
        self.done = true;
    }

    /// Dispatch one input event to the operation it selects.
    pub fn apply_event(&mut self, ev: InputEvent)
        ensures
            final(self).model() == step(old(self).model(), ev),
            cursor_ok(final(self).model()),
    {
        proof {
            use_type_invariant(&*self);
        }
        match ev {
            InputEvent::Quit => self.quit(),
            InputEvent::Down => self.next(),
            InputEvent::Up => self.previous(),
            InputEvent::PageDown => self.next_page(),
            InputEvent::PageUp => self.prev_page(),
            InputEvent::Confirm => self.confirm(),
            InputEvent::Other => {},
        }
    }

    /// The listing, for rendering.
    pub fn branches(&self) -> (r: &Vec<BranchRecord>)
        ensures
            views_of(r@) == self.model().branches,
    {
        &self.branches
    }

    /// The highlighted index, for rendering.
    pub fn cursor(&self) -> (r: Option<usize>)
        ensures
            r == self.model().cursor,
    {
        self.cursor
    }

    /// Whether the session is over.
    pub fn is_done(&self) -> (r: bool)
        ensures
            r == self.model().done,
    {
        self.done
    }

    /// The confirmed branch name, if any was selected.
    pub fn confirmed_branch(&self) -> (r: &Option<String>)
        ensures
            match r {
                Some(s) => self.model().confirmed == Some(s@),
                None => self.model().confirmed is None,
            },
    {
        &self.confirmed_branch
    }

    /// The configured page size.
    pub fn page_size(&self) -> (r: usize)
        ensures
            r == self.model().page_size,
    {
        self.page_size
    }
}

/// The cursor a fresh model starts with: the first current branch, the
/// top of a non-empty listing, or nothing.
pub open spec fn initial_cursor(s: Seq<RecordView>) -> Option<usize> {
    if exists|m: int| 0 <= m < s.len() && s[m].is_current {
        Some(first_current(s) as usize)
    } else if s.len() > 0 {
        Some(0usize)
    } else {
        None
    }
}

/// The least index of a current branch.
pub open spec fn first_current(s: Seq<RecordView>) -> int {
    choose|m: int|
        0 <= m < s.len() && s[m].is_current && forall|p: int| 0 <= p < m ==> !s[p].is_current
}

proof fn lemma_first_current(s: Seq<RecordView>, j: int)
    requires
        0 <= j < s.len(),
        s[j].is_current,
        forall|p: int| 0 <= p < j ==> !s[p].is_current,
    ensures
        initial_cursor(s) == Some(j as usize),
{
    assert(0 <= j < s.len() && s[j].is_current && (forall|p: int|
        0 <= p < j ==> !s[p].is_current));
    assert(exists|m: int|
        0 <= m < s.len() && s[m].is_current && (forall|p: int|
            0 <= p < m ==> !s[p].is_current));
    let w = first_current(s);
    assert(0 <= w < s.len() && s[w].is_current && (forall|p: int|
        0 <= p < w ==> !s[p].is_current));
    if w < j {
        assert(!s[w].is_current);
    }
    if j < w {
        assert(!s[j].is_current);
    }
}

proof fn lemma_no_current(s: Seq<RecordView>)
    requires
        forall|m: int| 0 <= m < s.len() ==> !s[m].is_current,
    ensures
        initial_cursor(s) == if s.len() > 0 {
            Some(0usize)
        } else {
            None::<usize>
        },
{
}

/// The viewport height the front end sizes its list to: three rows for
/// the empty notice, else the listing plus a two-row frame, at most 20.
pub fn viewport_height_for(len: usize) -> (r: u16)
    ensures
        len == 0 ==> r == 3,
        0 < len && len + 2 < 20 ==> r == len + 2,
        len + 2 >= 20 ==> r == 20,
{
    if len == 0 {
        3
    } else if len < 18 {
        (len as u16) + 2
    } else {
        20
    }
}

/// The page size for a viewport: the rows minus the two frame rows, at
/// least one.
pub fn page_size_for(viewport_rows: u16) -> (r: usize)
    ensures
        viewport_rows >= 3 ==> r == viewport_rows - 2,
        viewport_rows < 3 ==> r == 1,
{
    if viewport_rows >= 3 {
        (viewport_rows - 2) as usize
    } else {
        1
    }
}

/// Stepping down `n` times from index `i`.
pub open spec fn next_index_n(i: int, len: int, n: nat) -> int
    decreases n,
{
    if n == 0 {
        i
    } else {
        next_index(next_index_n(i, len, (n - 1) as nat), len)
    }
}

/// Stepping up `n` times from index `i`.
pub open spec fn prev_index_n(i: int, len: int, n: nat) -> int
    decreases n,
{
    if n == 0 {
        i
    } else {
        prev_index(prev_index_n(i, len, (n - 1) as nat), len)
    }
}

proof fn lemma_next_index_n_formula(i: int, len: int, n: nat)
    requires
        0 <= i < len,
        n <= len,
    ensures
        next_index_n(i, len, n) == if i + n < len {
            i + n
        } else {
            i + n - len
        },
    decreases n,
{
    if n > 0 {
        lemma_next_index_n_formula(i, len, (n - 1) as nat);
    }
}

proof fn lemma_prev_index_n_formula(i: int, len: int, n: nat)
    requires
        0 <= i < len,
        n <= len,
    ensures
        prev_index_n(i, len, n) == if i - n >= 0 {
            i - n
        } else {
            i - n + len
        },
    decreases n,
{
    if n > 0 {
        lemma_prev_index_n_formula(i, len, (n - 1) as nat);
    }
}

/// Stepping down is cyclic: on a non-empty listing, `len` single steps
/// return the cursor to where it started.
pub proof fn lemma_next_cycles(i: int, len: int)
    requires
        0 <= i < len,
    ensures
        next_index_n(i, len, len as nat) == i,
{
    lemma_next_index_n_formula(i, len, len as nat);
}

/// Stepping up is cyclic: on a non-empty listing, `len` single steps
/// return the cursor to where it started.
pub proof fn lemma_prev_cycles(i: int, len: int)
    requires
        0 <= i < len,
    ensures
        prev_index_n(i, len, len as nat) == i,
{
    lemma_prev_index_n_formula(i, len, len as nat);
}

/// The model after `n` single steps down.
pub open spec fn step_next_n(m: ModelView, n: nat) -> ModelView
    decreases n,
{
    if n == 0 {
        m
    } else {
        step_next(step_next_n(m, (n - 1) as nat))
    }
}

/// The model after `n` single steps up.
pub open spec fn step_prev_n(m: ModelView, n: nat) -> ModelView
    decreases n,
{
    if n == 0 {
        m
    } else {
        step_prev(step_prev_n(m, (n - 1) as nat))
    }
}

proof fn lemma_step_next_n_cursor(m: ModelView, n: nat)
    requires
        cursor_ok(m),
        m.cursor is Some,
        0 < m.branches.len() <= usize::MAX,
        n <= m.branches.len(),
    ensures
        step_next_n(m, n).branches == m.branches,
        step_next_n(m, n).cursor == Some(
            next_index_n(
                m.cursor.unwrap() as int,
                m.branches.len() as int,
                n,
            ) as usize,
        ),
    decreases n,
{
    let i = m.cursor.unwrap() as int;
    let len = m.branches.len() as int;
    if n > 0 {
        lemma_step_next_n_cursor(m, (n - 1) as nat);
        lemma_next_index_n_formula(i, len, (n - 1) as nat);
        lemma_next_index_n_formula(i, len, n);
    }
}

proof fn lemma_step_prev_n_cursor(m: ModelView, n: nat)
    requires
        cursor_ok(m),
        m.cursor is Some,
        0 < m.branches.len() <= usize::MAX,
        n <= m.branches.len(),
    ensures
        step_prev_n(m, n).branches == m.branches,
        step_prev_n(m, n).cursor == Some(
            prev_index_n(
                m.cursor.unwrap() as int,
                m.branches.len() as int,
                n,
            ) as usize,
        ),
    decreases n,
{
    let i = m.cursor.unwrap() as int;
    let len = m.branches.len() as int;
    if n > 0 {
        lemma_step_prev_n_cursor(m, (n - 1) as nat);
        lemma_prev_index_n_formula(i, len, (n - 1) as nat);
        lemma_prev_index_n_formula(i, len, n);
    }
}

/// Stepping down is cyclic on the model too: on a non-empty listing
/// with the cursor set, as many single steps down as the listing is
/// long return the cursor to its starting index.
pub proof fn lemma_move_next_cycles(m: ModelView)
    requires
        cursor_ok(m),
        m.cursor is Some,
        0 < m.branches.len() <= usize::MAX,
    ensures
        step_next_n(m, m.branches.len()).cursor == m.cursor,
{
    lemma_step_next_n_cursor(m, m.branches.len());
    lemma_next_cycles(m.cursor.unwrap() as int, m.branches.len() as int);
}

/// Stepping up is cyclic on the model too, the mirror image of
/// [`lemma_move_next_cycles`].
pub proof fn lemma_move_previous_cycles(m: ModelView)
    requires
        cursor_ok(m),
        m.cursor is Some,
        0 < m.branches.len() <= usize::MAX,
    ensures
        step_prev_n(m, m.branches.len()).cursor == m.cursor,
{
    lemma_step_prev_n_cursor(m, m.branches.len());
    lemma_prev_cycles(m.cursor.unwrap() as int, m.branches.len() as int);
}

/// Paging forward from a valid index never leaves the listing, for any
/// page size.
pub proof fn lemma_page_forward_bounded(i: int, page: int, len: int)
    requires
        0 <= i < len,
        page >= 0,
    ensures
        0 <= page_forward_index(i, page, len) < len,
{
}

/// Paging backward never passes 0 and never moves forward.
pub proof fn lemma_page_backward_bounded(i: int, page: int)
    requires
        i >= 0,
        page >= 0,
    ensures
        0 <= page_backward_index(i, page) <= i,
{
}

/// Paging forward keeps the whole model well-placed: on any listing
/// and for any page size, the cursor never reaches the listing length.
pub proof fn lemma_page_forward_in_range(m: ModelView)
    requires
        cursor_ok(m),
    ensures
        cursor_ok(step_page_forward(m)),
{
}

/// Paging backward keeps the whole model well-placed: the cursor never
/// leaves the front of the listing.
pub proof fn lemma_page_backward_in_range(m: ModelView)
    requires
        cursor_ok(m),
    ensures
        cursor_ok(step_page_backward(m)),
{
}

} // verus!
