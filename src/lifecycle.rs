use vstd::prelude::*;

verus! {

/// The slot's state: the installed instance, if any, and its outstanding borrows.
pub struct SlotView<T> {
    pub instance: Option<T>,
    pub refs: nat,
}

pub open spec fn after_init<T>(s: SlotView<T>, t: T) -> SlotView<T> {
    if s.instance is Some {
        s
    } else {
        SlotView { instance: Some(t), refs: 0 }
    }
}

/// Borrowing is allowed only while an instance is installed.
pub open spec fn can_get<T>(s: SlotView<T>) -> bool {
    s.instance is Some && s.refs < usize::MAX
}

pub open spec fn after_get<T>(s: SlotView<T>) -> SlotView<T> {
    SlotView { refs: s.refs + 1, ..s }
}

pub open spec fn after_release<T>(s: SlotView<T>) -> SlotView<T> {
    if s.refs > 0 {
        SlotView { refs: (s.refs - 1) as nat, ..s }
    } else {
        s
    }
}

/// Teardown is allowed only for an installed instance with no borrow outstanding.
pub open spec fn can_free<T>(s: SlotView<T>) -> bool {
    s.instance is Some && s.refs == 0
}

pub open spec fn after_free<T>(s: SlotView<T>) -> SlotView<T> {
    SlotView { instance: None, refs: 0 }
}

/// `s` after `n` releases.
pub open spec fn release_n<T>(s: SlotView<T>, n: nat) -> SlotView<T>
    decreases n,
{
    if n == 0 {
        s
    } else {
        after_release(release_n(s, (n - 1) as nat))
    }
}

/// Reference-counted slot for the process-wide core: installed once,
/// borrowed and released, torn down only when no borrow is outstanding.
pub struct CoreSlot<T> {
    instance: Option<T>,
    refs: usize,
}

impl<T> View for CoreSlot<T> {
    type V = SlotView<T>;

    closed spec fn view(&self) -> SlotView<T> {
        SlotView { instance: self.instance, refs: self.refs as nat }
    }
}

impl<T> CoreSlot<T> {
    /// A slot with nothing installed.
    pub fn empty() -> (r: Self)
        ensures
            r@.instance is None,
            r@.refs == 0,
    {
        CoreSlot { instance: None, refs: 0 }
    }

    /// Installs `instance` unless one is installed already; reports whether it did.
    pub fn init(&mut self, instance: T) -> (r: bool)
        ensures
            r == (old(self)@.instance is None),
            final(self)@ == after_init(old(self)@, instance),
    {
        if self.instance.is_some() {
            false
        } else {
            self.instance = Some(instance);
            self.refs = 0;
            true
        }
    }

    /// Whether an instance is installed.
    pub fn is_installed(&self) -> (r: bool)
        ensures
            r == (self@.instance is Some),
    {
        self.instance.is_some()
    }

    /// The number of outstanding borrows.
    pub fn refs(&self) -> (r: usize)
        ensures
            r == self@.refs,
    {
        self.refs
    }

    /// Borrows the instance, counting one more outstanding reference. Using
    /// the core before it is installed is fatal: callers test `is_installed`.
    pub fn get_instance(&mut self) -> (r: &T)
        requires
            can_get(old(self)@),
        ensures
            *r == old(self)@.instance->0,
            final(self)@ == after_get(old(self)@),
    {
        self.refs = self.refs + 1;
        match &self.instance {
            Some(t) => t,
            None => vstd::pervasive::unreached(),
        }
    }

    /// Releases one outstanding reference.
    pub fn sub_ref(&mut self)
        ensures
            final(self)@ == after_release(old(self)@),
    {
        if self.refs > 0 {
            self.refs = self.refs - 1;
        }
    }

    /// Tears the slot down and hands the instance back. Tearing down while a
    /// borrow is outstanding is fatal: callers test `refs` first.
    pub fn free(&mut self) -> (r: T)
        requires
            can_free(old(self)@),
        ensures
            r == old(self)@.instance->0,
            final(self)@ == after_free(old(self)@),
    {
        self.refs = 0;
        match self.instance.take() {
            Some(t) => t,
            None => vstd::pervasive::unreached(),
        }
    }
}

/// Teardown is not allowed while a borrow is outstanding. Once every borrow
/// is released it is, and afterwards borrowing is not allowed until the slot
/// is installed again.
pub proof fn lemma_teardown_waits_for_release<T>(s: SlotView<T>)
    requires
        s.instance is Some,
    ensures
        s.refs > 0 ==> !can_free(s),
        can_free(release_n(s, s.refs)),
        release_n(s, s.refs).instance == s.instance,
        !can_get(after_free(release_n(s, s.refs))),
{
    lemma_release_n(s, s.refs);
}

proof fn lemma_release_n<T>(s: SlotView<T>, n: nat)
    requires
        n <= s.refs,
    ensures
        release_n(s, n) == (SlotView { refs: (s.refs - n) as nat, ..s }),
    decreases n,
{
    if n > 0 {
        lemma_release_n(s, (n - 1) as nat);
    }
}

} // verus!
