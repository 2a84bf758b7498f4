use vstd::prelude::*;
use crate::item::NewsItem;

verus! {

/// Which entries a reader is shown.
#[derive(Clone, Copy, Debug, PartialEq, Eq, Structural)]
pub enum Filter {
    All,
    Read,
    Unread,
}

/// An item as a reader sees it, with whether it has been read.
pub struct Entry {
    pub item: NewsItem,
    pub read: bool,
}

/// The entries on show and the filter applied to them.
pub struct State {
    pub entries: Vec<Entry>,
    pub filter: Filter,
}

pub open spec fn fits(f: Filter, read: bool) -> bool {
    match f {
        Filter::All => true,
        Filter::Read => read,
        Filter::Unread => !read,
    }
}

/// How many of `s` the filter `f` lets through.
pub open spec fn count_fitting(s: Seq<Entry>, f: Filter) -> nat
    decreases s.len(),
{
    if s.len() == 0 {
        0
    } else {
        count_fitting(s.drop_last(), f) + if fits(f, s.last().read) {
            1nat
        } else {
            0nat
        }
    }
}

proof fn lemma_count_bounded(s: Seq<Entry>, f: Filter)
    ensures
        count_fitting(s, f) <= s.len(),
    decreases s.len(),
{
    if s.len() > 0 {
        lemma_count_bounded(s.drop_last(), f);
    }
}

impl Filter {
    /// Whether this filter shows `entry`.
    pub fn fit(&self, entry: &Entry) -> (r: bool)
        ensures
            r == fits(*self, entry.read),
    {
        match self {
            Filter::All => true,
            Filter::Unread => !entry.read,
            Filter::Read => entry.read,
        }
    }
}

impl State {
    /// Marks entry `idx` as read and changes nothing else.
    pub fn read(&mut self, idx: usize)
        requires
            idx < old(self).entries@.len(),
        ensures
            final(self).filter == old(self).filter,
            final(self).entries@.len() == old(self).entries@.len(),
            final(self).entries@[idx as int].read,
            final(self).entries@[idx as int].item == old(self).entries@[idx as int].item,
            forall|i: int|
                0 <= i < old(self).entries@.len() && i != idx ==> final(self).entries@[i]
                    == old(self).entries@[i],
    {
        let mut e = self.entries.remove(idx);
        e.read = true;
        self.entries.insert(idx, e);
    }

    pub fn total(&self) -> (r: usize)
        ensures
            r == self.entries@.len(),
    {
        self.entries.len()
    }

    fn count(&self, f: Filter) -> (r: usize)
        ensures
            r == count_fitting(self.entries@, f),
    {
        let mut n: usize = 0;
        let mut i: usize = 0;
        while i < self.entries.len()
            invariant
                i <= self.entries@.len(),
                n == count_fitting(self.entries@.subrange(0, i as int), f),
            decreases self.entries@.len() - i,
        {
            proof {
                assert(self.entries@.subrange(0, i + 1).drop_last() =~= self.entries@.subrange(0, i as int));
                lemma_count_bounded(self.entries@.subrange(0, i as int), f);
            }
            if f.fit(&self.entries[i]) {
                n = n + 1;
            }
            i = i + 1;
        }
        assert(self.entries@.subrange(0, self.entries@.len() as int) =~= self.entries@);
        n
    }

    /// How many entries have been read.
    pub fn total_read(&self) -> (r: usize)
        ensures
            r == count_fitting(self.entries@, Filter::Read),
    {
        self.count(Filter::Read)
    }

    /// How many entries are still unread.
    pub fn total_unread(&self) -> (r: usize)
        ensures
            r == count_fitting(self.entries@, Filter::Unread),
    {
        self.count(Filter::Unread)
    }

    /// Whether the current filter shows at least one entry and every entry it
    /// shows has been read.
    pub fn is_all_read(&self) -> (r: bool)
        ensures
            r == ((exists|i: int| 0 <= i < self.entries@.len() && fits(self.filter, #[trigger] self.entries@[i].read))
                && forall|i: int|
                0 <= i < self.entries@.len() && fits(self.filter, #[trigger] self.entries@[i].read)
                    ==> self.entries@[i].read),
    {
        let mut any = false;
        let mut i: usize = 0;
        while i < self.entries.len()
            invariant
                i <= self.entries@.len(),
                any == exists|k: int| 0 <= k < i && fits(self.filter, #[trigger] self.entries@[k].read),
                forall|k: int| 0 <= k < i && fits(self.filter, #[trigger] self.entries@[k].read) ==> self.entries@[k].read,
            decreases self.entries@.len() - i,
        {
            if self.filter.fit(&self.entries[i]) {
                if !self.entries[i].read {
                    return false;
                }
                any = true;
            }
            i = i + 1;
        }
        any
    }
}

} // verus!
