//! The breakpoint set: logical line indices, without duplicates.

use vstd::prelude::*;

verus! {

/// A set of logical line indices.
pub struct Breakpoints {
    points: Vec<usize>,
}

impl Breakpoints {
    /// The lines the set holds.
    pub closed spec fn spec_has(&self, line: int) -> bool {
        exists|i: int| 0 <= i < self.points@.len() && #[trigger] self.points@[i] == line
    }

    pub fn new() -> (r: Breakpoints)
        ensures
            forall|line: int| !r.spec_has(line),
    {
        Breakpoints { points: Vec::new() }
    }

    /// Whether a breakpoint is set at the line.
    pub fn contains(&self, logical_line: usize) -> (r: bool)
        ensures
            r == self.spec_has(logical_line as int),
    {
        let mut i: usize = 0;
        while i < self.points.len()
            invariant
                0 <= i <= self.points@.len(),
                forall|j: int| 0 <= j < i ==> self.points@[j] != logical_line,
            decreases self.points@.len() - i,
        {
            if self.points[i] == logical_line {
                return true;
            }
            i = i + 1;
        }
        false
    }

    /// Set a breakpoint at the line.
    pub fn add(&mut self, logical_line: usize)
        ensures
            forall|line: int|
                final(self).spec_has(line) == (old(self).spec_has(line) || line
                    == logical_line as int),
    {
        if !self.contains(logical_line) {
            let ghost pre = self.points@;
            self.points.push(logical_line);
            proof {
                assert forall|line: int|
                    final(self).spec_has(line) == (old(self).spec_has(line) || line
                        == logical_line as int) by {
                    if old(self).spec_has(line) {
                        let j = choose|j: int|
                            0 <= j < pre.len() && #[trigger] pre[j] == line;
                        assert(self.points@[j] == line);
                    }
                    if self.spec_has(line) {
                        let j = choose|j: int|
                            0 <= j < self.points@.len() && #[trigger] self.points@[j] == line;
                        if j < pre.len() {
                            assert(pre[j] == line);
                        }
                    }
                    assert(self.points@[pre.len() as int] == logical_line);
                }
            }
        }
    }

    /// Remove a breakpoint from the line.
    pub fn remove(&mut self, logical_line: usize)
        ensures
            forall|line: int|
                final(self).spec_has(line) == (old(self).spec_has(line) && line
                    != logical_line as int),
    {
        let mut out: Vec<usize> = Vec::new();
        let mut i: usize = 0;
        while i < self.points.len()
            invariant
                0 <= i <= self.points@.len(),
                *self == *old(self),
                forall|j: int|
                    0 <= j < out@.len() ==> #[trigger] out@[j] != logical_line,
                forall|j: int|
                    0 <= j < out@.len() ==> exists|k: int|
                        0 <= k < i && self.points@[k] == #[trigger] out@[j],
                forall|k: int|
                    0 <= k < i && self.points@[k] != logical_line ==> exists|j: int|
                        0 <= j < out@.len() && out@[j] == #[trigger] self.points@[k],
            decreases self.points@.len() - i,
        {
            let v = self.points[i];
            if v != logical_line {
                let ghost out0 = out@;
                out.push(v);
                proof {
                    assert(out@[out@.len() - 1] == self.points@[i as int]);
                    assert forall|j: int| 0 <= j < out@.len() implies exists|k: int|
                        0 <= k < i + 1 && self.points@[k] == #[trigger] out@[j] by {
                        if j < out@.len() - 1 {
                            let k = choose|k: int|
                                0 <= k < i && self.points@[k] == #[trigger] out@[j];
                            assert(0 <= k < i + 1 && self.points@[k] == out@[j]);
                        } else {
                            assert(self.points@[i as int] == out@[j]);
                        }
                    }
                    assert forall|k: int|
                        0 <= k < i + 1 && self.points@[k] != logical_line implies exists|j: int|
                        0 <= j < out@.len() && out@[j] == #[trigger] self.points@[k] by {
                        if k < i {
                            let j = choose|j: int|
                                0 <= j < out0.len() && out0[j] == #[trigger] self.points@[k];
                            assert(out@[j] == self.points@[k]);
                        } else {
                            assert(out@[out@.len() - 1] == self.points@[k]);
                        }
                    }
                }
            }
            i = i + 1;
        }
        let ghost pre = self.points@;
        self.points = out;
        proof {
            assert forall|line: int|
                final(self).spec_has(line) == (old(self).spec_has(line) && line
                    != logical_line as int) by {
                if self.spec_has(line) {
                    let j = choose|j: int|
                        0 <= j < self.points@.len() && #[trigger] self.points@[j] == line;
                }
                if old(self).spec_has(line) && line != logical_line as int {
                    let k = choose|k: int| 0 <= k < pre.len() && #[trigger] pre[k] == line;
                }
            }
        }
    }

    /// Remove every breakpoint.
    pub fn clear(&mut self)
        ensures
            forall|line: int| !final(self).spec_has(line),
    {
        self.points.clear();
    }
}

} // verus!
