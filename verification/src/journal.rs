//! Append-only change logs with independently advancing read cursors: every
//! registered consumer sees each recorded entry exactly once, at its own pace,
//! without disturbing the other consumers.
use vstd::prelude::*;

verus! {

/// What happened to an attribute of a node.
#[derive(Debug, Clone, Copy, PartialEq, Eq, Structural)]
pub enum ChangeKind {
    Inserted,
    Modified,
    Removed,
}

/// An append-only log of `T` entries plus one read cursor per registered
/// consumer. A cursor starts at the log position current at registration, so
/// a consumer sees only what is recorded after it registered.
pub struct EventChannel<T> {
    entries: Vec<T>,
    cursors: Vec<usize>,
}

impl<T: Copy> EventChannel<T> {
    /// All entries ever recorded, oldest first.
    pub closed spec fn log(self) -> Seq<T> {
        self.entries@
    }

    /// The positions of the registered cursors.
    pub closed spec fn cursors(self) -> Seq<int> {
        self.cursors@.map_values(|c: usize| c as int)
    }

    pub open spec fn wf(self) -> bool {
        forall|i: int| 0 <= i < self.cursors().len() ==> 0 <= #[trigger] self.cursors()[i]
            <= self.log().len()
    }

    /// True if the consumer owning cursor `r` has read everything recorded.
    pub open spec fn caught_up(self, r: int) -> bool {
        self.cursors()[r] == self.log().len()
    }

    pub fn new() -> (r: Self)
        ensures
            r.wf(),
            r.log() =~= Seq::<T>::empty(),
            r.cursors() =~= Seq::<int>::empty(),
    {
        EventChannel { entries: Vec::new(), cursors: Vec::new() }
    }

    /// Registers a new consumer; its cursor starts at the current end of the
    /// log, so only later entries will be handed to it.
    pub fn register_reader(&mut self) -> (r: usize)
        requires
            old(self).wf(),
        ensures
            final(self).wf(),
            final(self).log() == old(self).log(),
            r == old(self).cursors().len(),
            final(self).cursors() =~= old(self).cursors().push(old(self).log().len() as int),
    {
        let r = self.cursors.len();
        let end = self.entries.len();
        self.cursors.push(end);
        assert(self.cursors() =~= old(self).cursors().push(old(self).log().len() as int));
        r
    }

    /// Appends one entry; no cursor moves, so every consumer will see it.
    pub fn record(&mut self, entry: T)
        requires
            old(self).wf(),
        ensures
            final(self).wf(),
            final(self).log() =~= old(self).log().push(entry),
            final(self).cursors() == old(self).cursors(),
    {
        self.entries.push(entry);
        proof {
            assert forall|i: int| 0 <= i < self.cursors().len() implies 0 <= #[trigger] self.cursors()[i] <= self.log().len() by {
                assert(old(self).cursors()[i] <= old(self).log().len());
            }
        }
    }

    /// Hands cursor `r`'s consumer every entry recorded since its last read,
    /// oldest first, and advances the cursor past them.
    pub fn read(&mut self, r: usize) -> (out: Vec<T>)
        requires
            old(self).wf(),
            r < old(self).cursors().len(),
        ensures
            final(self).wf(),
            final(self).log() == old(self).log(),
            out@ =~= old(self).log().subrange(old(self).cursors()[r as int], old(self).log().len() as int),
            final(self).cursors() =~= old(self).cursors().update(r as int, final(self).log().len() as int),
            final(self).caught_up(r as int),
    {
        let mut out: Vec<T> = Vec::new();
        proof {
            assert(0 <= old(self).cursors()[r as int] <= old(self).log().len());
        }
        let start = self.cursors[r];
        let end = self.entries.len();
        assert(start <= end);
        let mut i = start;
        while i < end
            invariant
                start <= i <= end,
                end == self.entries@.len(),
                start <= end,
                out@ =~= self.entries@.subrange(start as int, i as int),
            decreases end - i,
        {
            out.push(self.entries[i]);
            i += 1;
        }
        self.cursors[r] = end;
        assert(self.cursors() =~= old(self).cursors().update(r as int, self.log().len() as int));
        out
    }

    /// True if cursor `r`'s consumer has nothing pending to read.
    pub fn is_caught_up(&self, r: usize) -> (b: bool)
        requires
            self.wf(),
            r < self.cursors().len(),
        ensures
            b == self.caught_up(r as int),
    {
        self.cursors[r] == self.entries.len()
    }
}

/// Two reads through the same cursor hand out consecutive, non-overlapping
/// stretches of the log: together they cover exactly what was recorded from
/// the first cursor position to the end of the later log, so a consumer sees
/// each entry exactly once.
pub proof fn lemma_reads_partition<T>(log1: Seq<T>, c0: int, log2: Seq<T>, first: Seq<T>, second: Seq<T>)
    requires
        0 <= c0 <= log1.len(),
        log1.len() <= log2.len(),
        log2.subrange(0, log1.len() as int) == log1,
        first == log1.subrange(c0, log1.len() as int),
        second == log2.subrange(log1.len() as int, log2.len() as int),
    ensures
        first + second =~= log2.subrange(c0, log2.len() as int),
{
    assert forall|i: int| 0 <= i < first.len() implies (first + second)[i] == log2.subrange(
        c0,
        log2.len() as int,
    )[i] by {
        assert(first[i] == log1[c0 + i]);
        assert(log1[c0 + i] == log2.subrange(0, log1.len() as int)[c0 + i]);
    }
}

} // verus!
