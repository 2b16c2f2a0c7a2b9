//! The reverse curriculum: episodes that start behind a scaffold of reference actions, and the
//! search for the shortest scaffold that is still enough.

use vstd::arithmetic::power2::pow2;
use vstd::prelude::*;

verus! {

/// What [`next_prefix_probe`] gives.
pub open spec fn spec_next_probe(lo: int, hi: int) -> Option<int> {
    if hi <= lo + 1 {
        None
    } else {
        Some(lo + (hi - lo) / 2)
    }
}

/// The next scaffold to probe: the middle between `lo`, the longest one that failed, and `hi`,
/// the shortest one that was enough. `None` once nothing lies between them.
pub fn next_prefix_probe(lo: usize, hi: usize) -> (r: Option<usize>)
    requires
        lo < usize::MAX,
    ensures
        match spec_next_probe(lo as int, hi as int) {
            Some(p) => r is Some && r->0 == p && lo < p < hi,
            None => r is None,
        },
{
    if hi <= lo + 1 {
        return None;
    }
    let mid: usize = lo + (hi - lo) / 2;
    if mid == lo {
        None
    } else {
        Some(mid)
    }
}

/// Where the search for the shortest scaffold stands.
pub ghost struct Bracket {
    /// The longest scaffold that failed.
    pub lo: int,
    /// The shortest scaffold that was enough.
    pub hi: int,
    /// The scaffold to probe next, if any.
    pub probe: Option<int>,
}

impl Bracket {
    /// The bracket after the result of a probe.
    pub open spec fn after(self, enough: bool) -> Bracket {
        match self.probe {
            None => self,
            Some(p) => {
                let lo = if enough {
                    self.lo
                } else {
                    p
                };
                let hi = if enough {
                    p
                } else {
                    self.hi
                };
                Bracket {
                    lo,
                    hi,
                    probe: if enough && p == 0 {
                        None
                    } else {
                        spec_next_probe(lo, hi)
                    },
                }
            },
        }
    }

    /// The bracket after some probes, of which those from `cusp` on are enough.
    pub open spec fn probed(self, cusp: int, probes: nat) -> Bracket
        decreases probes,
    {
        match self.probe {
            Some(p) if probes > 0 => self.after(p >= cusp).probed(cusp, (probes - 1) as nat),
            _ => self,
        }
    }
}

/// Law: where exactly the scaffolds from `cusp` on are enough, the search keeps `cusp` between
/// the longest scaffold that failed and the shortest that was enough.
pub proof fn law_bracket_holds_cusp(b: Bracket, cusp: int, probes: nat)
    requires
        b.lo < cusp <= b.hi,
    ensures
        b.probed(cusp, probes).lo < cusp <= b.probed(cusp, probes).hi,
    decreases probes,
{
    if b.probe is Some && probes > 0 {
        law_bracket_holds_cusp(b.after(b.probe->0 >= cusp), cusp, (probes - 1) as nat);
    }
}

/// A bracket that was bisected once is half as wide.
proof fn lemma_pinned(b: Bracket, cusp: int, k: nat)
    requires
        0 <= b.lo < cusp <= b.hi,
        b.probe == spec_next_probe(b.lo, b.hi),
        b.hi - b.lo <= pow2(k),
    ensures
        b.probed(cusp, k).hi == cusp,
        b.probed(cusp, k).lo == cusp - 1,
    decreases k,
{
    if k == 0 {
        vstd::arithmetic::power2::lemma2_to64();
    } else if b.probe is Some {
        vstd::arithmetic::power2::lemma_pow2_unfold(k);
        let p = b.probe->0;
        let next = b.after(p >= cusp);
        assert(b.lo < p < b.hi);
        lemma_pinned(next, cusp, (k - 1) as nat);
    }
}

/// Law: the search pins the cusp. Where the scaffolds from `cusp` on are enough, and the first
/// probe lies between the ends, a first probe and as many more as it takes to halve the range
/// down to 1 end with `cusp` as the shortest scaffold that was enough and the one below it as
/// the longest that failed.
pub proof fn law_search_pins_cusp(lo: int, hi: int, first: int, cusp: int, k: nat)
    requires
        0 <= lo < cusp <= hi,
        lo <= first <= hi,
        hi - lo <= pow2(k),
    ensures
        ({
            let end = Bracket { lo, hi, probe: Some(first) }.probed(cusp, k + 1);
            &&& end.hi == cusp
            &&& end.lo == cusp - 1
        }),
{
    let b = Bracket { lo, hi, probe: Some(first) };
    lemma_pinned(b.after(first >= cusp), cusp, k);
}

/// The search for the shortest scaffold of a plan, with what the best and the failed probes
/// gave.
pub struct CuspSearch<T> {
    /// Actions of the plan.
    pub len: usize,
    /// The longest scaffold that failed.
    pub lo: usize,
    /// The shortest scaffold that was enough; `len` before one was.
    pub hi: usize,
    /// The scaffold of the next probe.
    pub prefix: usize,
    /// Whether there is a next probe.
    pub open: bool,
    /// Probes that are left.
    pub probes_left: usize,
    /// What the last probe that was enough gave.
    pub best: Option<T>,
    /// What the last probe that failed gave.
    pub failed: Option<T>,
}

impl<T> CuspSearch<T> {
    /// Where the search stands, its budget of probes aside.
    pub open spec fn bracket(&self) -> Bracket {
        Bracket {
            lo: self.lo as int,
            hi: self.hi as int,
            probe: if self.open {
                Some(self.prefix as int)
            } else {
                None
            },
        }
    }

    /// No scaffold is longer than the plan.
    pub open spec fn wf(&self) -> bool {
        &&& self.hi <= self.len
        &&& self.lo <= self.len
        &&& self.prefix <= self.len
        &&& self.len < usize::MAX
    }

    /// What [`CuspSearch::next`] gives.
    pub open spec fn spec_next(&self) -> Option<usize> {
        if self.open && self.probes_left > 0 {
            Some(self.prefix)
        } else {
            None
        }
    }

    /// A search over the scaffolds of a plan of `len` actions, which first probes `seed` and
    /// takes `floor` for too short.
    pub fn new(len: usize, seed: usize, floor: usize, probes: usize) -> (r: Self)
        requires
            len < usize::MAX,
            floor <= len,
        ensures
            r.wf(),
            r.len == len,
            r.bracket() == (Bracket {
                lo: floor as int,
                hi: len as int,
                probe: Some(
                    if seed <= len {
                        seed as int
                    } else {
                        len as int
                    },
                ),
            }),
            r.probes_left == probes,
            r.best is None,
            r.failed is None,
    {
        CuspSearch {
            len,
            lo: floor,
            hi: len,
            prefix: if seed <= len {
                seed
            } else {
                len
            },
            open: true,
            probes_left: probes,
            best: None,
            failed: None,
        }
    }

    /// The scaffold of the next probe; `None` at the end of the search.
    pub fn next(&self) -> (r: Option<usize>)
        ensures
            r == self.spec_next(),
    {
        if self.open && self.probes_left > 0 {
            Some(self.prefix)
        } else {
            None
        }
    }

    /// Takes the result of the probe, and whether its scaffold was enough. A probe without a
    /// scaffold that is enough ends the search.
    pub fn report(&mut self, outcome: T, enough: bool)
        requires
            old(self).wf(),
            old(self).spec_next() is Some,
        ensures
            final(self).wf(),
            final(self).len == old(self).len,
            final(self).bracket() == old(self).bracket().after(enough),
            final(self).probes_left == old(self).probes_left - 1,
            enough ==> final(self).best == Some(outcome) && final(self).failed == old(self).failed,
            !enough ==> final(self).failed == Some(outcome) && final(self).best == old(self).best,
    {
        self.probes_left = self.probes_left - 1;
        if enough {
            self.hi = self.prefix;
            self.best = Some(outcome);
            if self.prefix == 0 {
                self.open = false;
                return ;
            }
        } else {
            self.lo = self.prefix;
            self.failed = Some(outcome);
        }
        match next_prefix_probe(self.lo, self.hi) {
            Some(p) => {
                self.prefix = p;
            },
            None => {
                self.open = false;
            },
        }
    }
}

} // verus!
