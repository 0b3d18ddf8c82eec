//! The in-memory run log shown in the settings page: the most recent
//! lines, oldest first.

use vstd::prelude::*;
use std::collections::VecDeque;

verus! {

/// How many lines the log keeps.
pub const LOG_CAPACITY: usize = 300;

/// The last `n` items of `s` (all of them if there are fewer).
pub open spec fn latest<A>(s: Seq<A>, n: nat) -> Seq<A> {
    if s.len() <= n {
        s
    } else {
        s.skip(s.len() - n)
    }
}

/// A bounded log: the latest [`LOG_CAPACITY`] lines.
pub struct LogBuffer {
    lines: VecDeque<String>,
}

impl LogBuffer {
    #[verifier::type_invariant]
    spec fn bounded(self) -> bool {
        self.lines@.len() <= LOG_CAPACITY
    }

    /// The lines kept, oldest first.
    pub closed spec fn contents(&self) -> Seq<Seq<char>> {
        self.lines@.map_values(|s: String| s@)
    }

    /// An empty log.
    pub fn new() -> (b: Self)
        ensures
            b.contents() == Seq::<Seq<char>>::empty(),
    {
        let b = LogBuffer { lines: VecDeque::new() };
        assert(b.contents() =~= Seq::<Seq<char>>::empty());
        b
    }

    /// Adds a line, dropping the oldest one when the log is full: the log
    /// then holds the latest lines of what it held and the new one.
    pub fn push(&mut self, line: String)
        ensures
            final(self).contents() == latest(old(self).contents().push(line@), LOG_CAPACITY as nat),
    {
        proof {
            use_type_invariant(&*self);
        }
        let ghost before = self.contents();
        let mut lines = VecDeque::new();
        std::mem::swap(&mut lines, &mut self.lines);
        if lines.len() >= LOG_CAPACITY {
            let _ = lines.pop_front();
        }
        lines.push_back(line);
        proof {
            let all = before.push(line@);
            if before.len() >= LOG_CAPACITY {
                assert(lines@.map_values(|s: String| s@) =~= all.skip(all.len() - LOG_CAPACITY));
            } else {
                assert(lines@.map_values(|s: String| s@) =~= all);
            }
        }
        self.lines = lines;
    }

    /// The lines kept, oldest first.
    pub fn lines(&self) -> (v: Vec<String>)
        ensures
            v@.map_values(|s: String| s@) == self.contents(),
    {
        let mut v: Vec<String> = Vec::new();
        let mut i: usize = 0;
        while i < self.lines.len()
            invariant
                i <= self.lines@.len(),
                v@.len() == i,
                v@.map_values(|s: String| s@) == self.lines@.take(i as int).map_values(
                    |s: String| s@,
                ),
            decreases self.lines@.len() - i,
        {
            let ghost before = v@;
            let line = self.lines[i].clone();
            v.push(line);
            assert forall|j: int| 0 <= j < i + 1 implies #[trigger] v@[j]@ == self.lines@[j]@ by {
                if j < i {
                    assert(v@[j] == before[j]);
                    assert(before.map_values(|s: String| s@)[j] == self.lines@.take(
                        i as int,
                    ).map_values(|s: String| s@)[j]);
                }
            }
            assert(v@.map_values(|s: String| s@) =~= self.lines@.take(i + 1).map_values(
                |s: String| s@,
            ));
            i = i + 1;
        }
        assert(self.lines@.take(self.lines@.len() as int) =~= self.lines@);
        v
    }
}

} // verus!
