use vstd::prelude::*;

verus! {

/// The shared boolean flags that `UpdateFlag`s own and `UpdateNotifier`s set.
pub struct FlagBoard {
    flags: Vec<bool>,
}

/// A flag that asks for an update once it is set; it starts cleared unless
/// made with `new_true`.
#[derive(Debug)]
pub struct UpdateFlag {
    id: usize,
}

/// A handle that can only set the flag it was made from.
#[derive(Clone, Copy, Debug)]
pub struct UpdateNotifier {
    id: usize,
}

impl FlagBoard {
    pub closed spec fn flags(self) -> Seq<bool> {
        self.flags@
    }

    pub fn new() -> (r: Self)
        ensures
            r.flags() == Seq::<bool>::empty(),
    {
        FlagBoard { flags: Vec::new() }
    }

    /// Number of flags made on this board.
    pub fn len(&self) -> (r: usize)
        ensures
            r == self.flags().len(),
    {
        self.flags.len()
    }
}

impl UpdateFlag {
    pub closed spec fn id(self) -> nat {
        self.id as nat
    }

    fn add(board: &mut FlagBoard, value: bool) -> (r: Self)
        requires
            old(board).flags().len() < usize::MAX,
        ensures
            final(board).flags() == old(board).flags().push(value),
            r.id() == old(board).flags().len(),
    {
        let id = board.flags.len();
        board.flags.push(value);
        UpdateFlag { id }
    }

    /// A cleared flag.
    pub fn new(board: &mut FlagBoard) -> (r: Self)
        requires
            old(board).flags().len() < usize::MAX,
        ensures
            final(board).flags() == old(board).flags().push(false),
            r.id() == old(board).flags().len(),
    {
        UpdateFlag::add(board, false)
    }

    /// A flag that is set from the start.
    pub fn new_true(board: &mut FlagBoard) -> (r: Self)
        requires
            old(board).flags().len() < usize::MAX,
        ensures
            final(board).flags() == old(board).flags().push(true),
            r.id() == old(board).flags().len(),
    {
        UpdateFlag::add(board, true)
    }

    /// Clears the flag.
    pub fn reset(&self, board: &mut FlagBoard)
        requires
            self.id() < old(board).flags().len(),
        ensures
            final(board).flags() == old(board).flags().update(self.id() as int, false),
    {
        board.flags.set(self.id, false);
    }

    /// Sets the flag.
    pub fn set_true(&self, board: &mut FlagBoard)
        requires
            self.id() < old(board).flags().len(),
        ensures
            final(board).flags() == old(board).flags().update(self.id() as int, true),
    {
        board.flags.set(self.id, true);
    }

    /// A notifier for this flag.
    pub fn notifier(&self) -> (r: UpdateNotifier)
        ensures
            r.id() == self.id(),
    {
        UpdateNotifier { id: self.id }
    }

    /// Whether `board` holds this flag.
    pub fn belongs_to(&self, board: &FlagBoard) -> (r: bool)
        ensures
            r == (self.id() < board.flags().len()),
    {
        self.id < board.flags.len()
    }

    pub fn is_true(&self, board: &FlagBoard) -> (r: bool)
        requires
            self.id() < board.flags().len(),
        ensures
            r == board.flags()[self.id() as int],
    {
        board.flags[self.id]
    }
}

impl UpdateNotifier {
    pub closed spec fn id(self) -> nat {
        self.id as nat
    }

    /// Sets the flag this notifier was made from; does nothing when the
    /// board holds no such flag.
    pub fn notify(&mut self, board: &mut FlagBoard)
        ensures
            *final(self) == *old(self),
            old(self).id() < old(board).flags().len() ==> final(board).flags() == old(
                board,
            ).flags().update(old(self).id() as int, true),
            old(self).id() >= old(board).flags().len() ==> final(board).flags() == old(
                board,
            ).flags(),
    {
        if self.id < board.flags.len() {
            board.flags.set(self.id, true);
        }
    }
}

/// Notifying through a notifier made from a flag sets that flag, and
/// leaves every other flag as it was.
pub proof fn law_notify_sets_its_flag(
    flag: UpdateFlag,
    notifier: UpdateNotifier,
    flags: Seq<bool>,
    other: int,
)
    requires
        notifier.id() == flag.id(),
        flag.id() < flags.len(),
    ensures
        flags.update(notifier.id() as int, true)[flag.id() as int],
        0 <= other < flags.len() && other != flag.id() ==> flags.update(notifier.id() as int, true)[other]
            == flags[other],
{
}

} // verus!
