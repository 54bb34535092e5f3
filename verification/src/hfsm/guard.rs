//! Host-computed guard results. The kernel never evaluates a guard itself.
use vstd::prelude::*;
use crate::hfsm::ids::GuardId;

verus! {

#[derive(Clone, Copy, Debug, PartialEq, Eq, Structural)]
pub enum GuardValue {
    True,
    False,
    /// Not supplied by the host: an error, never treated as `False`.
    Missing,
}

/// Value of `guard` in `entries`: the first entry that names it decides.
pub open spec fn guard_value(entries: Seq<(GuardId, bool)>, guard: GuardId) -> GuardValue
    decreases entries.len(),
{
    if entries.len() == 0 {
        GuardValue::Missing
    } else if entries[0].0 == guard {
        if entries[0].1 {
            GuardValue::True
        } else {
            GuardValue::False
        }
    } else {
        guard_value(entries.drop_first(), guard)
    }
}

/// No `GuardId` appears twice.
pub open spec fn guards_unique(entries: Seq<(GuardId, bool)>) -> bool {
    forall|i: int, j: int| 0 <= j < i < entries.len() ==> entries[j].0 != entries[i].0
}

/// Borrowed `(GuardId, bool)` pairs. Duplicated ids make the frame invalid.
#[derive(Clone, Copy, Debug)]
pub struct GuardFrame<'a> {
    entries: &'a [(GuardId, bool)],
}

impl<'a> GuardFrame<'a> {
    pub closed spec fn view_entries(&self) -> Seq<(GuardId, bool)> {
        self.entries@
    }

    pub fn new(entries: &'a [(GuardId, bool)]) -> (f: Self)
        ensures
            f.view_entries() == entries@,
    {
        GuardFrame { entries }
    }

    pub fn entries(&self) -> (e: &'a [(GuardId, bool)])
        ensures
            e@ == self.view_entries(),
    {
        self.entries
    }

    pub fn lookup(&self, guard: GuardId) -> (v: GuardValue)
        ensures
            v == guard_value(self.view_entries(), guard),
    {
        let n = self.entries.len();
        let mut i: usize = 0;
        assert(self.entries@.subrange(0, n as int) =~= self.entries@);
        while i < n
            invariant
                n == self.entries@.len(),
                i <= n,
                guard_value(self.entries@, guard) == guard_value(self.entries@.subrange(i as int, n as int), guard),
            decreases n - i,
        {
            let (g, b) = self.entries[i];
            assert(self.entries@.subrange(i as int, n as int)[0] == self.entries@[i as int]);
            assert(self.entries@.subrange(i as int, n as int).drop_first() =~= self.entries@.subrange(i + 1, n as int));
            if g == guard {
                return if b {
                    GuardValue::True
                } else {
                    GuardValue::False
                };
            }
            i = i + 1;
        }
        assert(self.entries@.subrange(i as int, n as int).len() == 0);
        GuardValue::Missing
    }

    /// `false` when any `GuardId` appears twice.
    pub fn is_well_formed(&self) -> (r: bool)
        ensures
            r == guards_unique(self.view_entries()),
    {
        let n = self.entries.len();
        let mut i: usize = 0;
        while i < n
            invariant
                n == self.entries@.len(),
                i <= n,
                forall|a: int, b: int| 0 <= b < a < i ==> self.entries@[b].0 != self.entries@[a].0,
            decreases n - i,
        {
            let mut j: usize = 0;
            while j < i
                invariant
                    n == self.entries@.len(),
                    j <= i < n,
                    forall|b: int| 0 <= b < j ==> self.entries@[b].0 != self.entries@[i as int].0,
                decreases i - j,
            {
                if self.entries[j].0 == self.entries[i].0 {
                    return false;
                }
                j = j + 1;
            }
            i = i + 1;
        }
        true
    }
}

} // verus!
