//! The sliding replay window of a receiving session.
use vstd::prelude::*;

verus! {

/// How many counters the window tracks below and including the highest.
pub const WINDOW_SIZE: u64 = 2048;

/// The window as values: the highest accepted counter and the counters in
/// the window that were accepted.
pub struct WindowModel {
    pub highest: int,
    pub marked: Set<int>,
}

impl WindowModel {
    /// A counter is accepted when it is not more than 2047 below the highest
    /// and has not been accepted before.
    pub open spec fn accepts(self, c: int) -> bool {
        !(c + 2047 < self.highest || self.marked.contains(c))
    }

    /// The window after accepting `c`: the highest becomes `max(highest, c)`,
    /// `c` is marked, and counters that fall out of the window are forgotten.
    pub open spec fn record(self, c: int) -> WindowModel {
        let h = if c > self.highest { c } else { self.highest };
        WindowModel { highest: h, marked: self.marked.insert(c).filter(|d: int| d + 2047 >= h) }
    }

    /// Every marked counter lies in the window below the highest.
    pub open spec fn bounded(self) -> bool {
        forall|d: int| #[trigger] self.marked.contains(d) ==> d <= self.highest && self.highest - d <= 2047
    }

    /// The window after a sequence of received counters, each accepted or
    /// dropped as `accepts` decides.
    pub open spec fn run(self, cs: Seq<int>) -> WindowModel
        decreases cs.len(),
    {
        if cs.len() == 0 {
            self
        } else {
            let w = self.run(cs.drop_last());
            if w.accepts(cs.last()) {
                w.record(cs.last())
            } else {
                w
            }
        }
    }
}

/// Accepting a counter keeps every marked counter within 2047 of the highest.
pub proof fn lemma_record_bounded(w: WindowModel, c: int)
    requires
        w.bounded(),
        w.accepts(c),
    ensures
        w.record(c).bounded(),
        w.record(c).marked.contains(c),
        w.record(c).highest >= w.highest,
{
}

/// For any sequence of received counters, the set of accepted counters that
/// the window holds has no element more than 2047 below the highest accepted
/// counter, and the highest never decreases.
pub proof fn lemma_window_bounded(w: WindowModel, cs: Seq<int>)
    requires
        w.bounded(),
    ensures
        w.run(cs).bounded(),
        w.run(cs).highest >= w.highest,
    decreases cs.len(),
{
    if cs.len() > 0 {
        lemma_window_bounded(w, cs.drop_last());
        let v = w.run(cs.drop_last());
        if v.accepts(cs.last()) {
            lemma_record_bounded(v, cs.last());
        }
    }
}

/// Replay protection over a bitmap indexed by counter modulo the window size.
pub struct ReplayWindow {
    highest: u64,
    bits: [bool; 2048],
}

impl View for ReplayWindow {
    type V = WindowModel;

    closed spec fn view(&self) -> WindowModel {
        WindowModel {
            highest: self.highest as int,
            marked: Set::new(
                |d: int| 0 <= d <= self.highest && d + 2047 >= self.highest && self.bits@[d % 2048],
            ),
        }
    }
}

proof fn lemma_mod_distinct(d: int, e: int)
    requires
        0 <= d < e,
        e - d < 2048,
    ensures
        d % 2048 != e % 2048,
{
    vstd::arithmetic::div_mod::lemma_fundamental_div_mod(d, 2048);
    vstd::arithmetic::div_mod::lemma_fundamental_div_mod(e, 2048);
    if d % 2048 == e % 2048 {
        assert(e - d == 2048 * (e / 2048 - d / 2048)) by (nonlinear_arith)
            requires
                d == 2048 * (d / 2048) + d % 2048,
                e == 2048 * (e / 2048) + e % 2048,
                d % 2048 == e % 2048,
        ;
        assert(false) by (nonlinear_arith)
            requires
                e - d == 2048 * (e / 2048 - d / 2048),
                0 < e - d < 2048,
        ;
    }
}

impl ReplayWindow {
    /// The window's view is always bounded.
    pub proof fn lemma_view_bounded(&self)
        ensures
            self@.bounded(),
    {
    }

    /// An empty window.
    pub fn new() -> (r: Self)
        ensures
            r@.bounded(),
            r@.highest == 0,
            r@.marked == Set::<int>::empty(),
    {
        let r = ReplayWindow { highest: 0, bits: [false; 2048] };
        assert(r@.marked =~= Set::<int>::empty());
        r
    }

    /// The highest accepted counter (0 before any).
    pub fn highest(&self) -> (r: u64)
        ensures
            r == self@.highest,
    {
        self.highest
    }

    /// Whether a packet with counter `c` may be accepted.
    pub fn check(&self, c: u64) -> (r: bool)
        ensures
            r == self@.accepts(c as int),
    {
        if c < self.highest && self.highest - c > 2047 {
            return false;
        }
        if c > self.highest {
            assert(!self@.marked.contains(c as int));
            return true;
        }
        !self.bits[(c % 2048) as usize]
    }

    /// Records the acceptance of `c`.
    pub fn mark(&mut self, c: u64)
        requires
            old(self)@.accepts(c as int),
        ensures
            final(self)@ == old(self)@.record(c as int),
    {
        let ghost old_bits = self.bits@;
        let ghost old_h = self.highest as int;
        if c > self.highest {
            if c - self.highest >= 2048 {
                self.bits = [false; 2048];
            } else {
                let gap = c - self.highest;
                let mut k: u64 = 0;
                while k < gap
                    invariant
                        k <= gap,
                        gap == c - old_h,
                        gap < 2048,
                        self.highest == old_h,
                        self.bits@.len() == 2048,
                        forall|d: int|
                            old_h + k + 1 - 2048 <= d <= old_h + k && d >= 0 ==> #[trigger] self.bits@[d % 2048] == (d
                                <= old_h && old_bits[d % 2048]),
                    decreases gap - k,
                {
                    let e = self.highest + 1 + k;
                    self.bits[(e % 2048) as usize] = false;
                    proof {
                        assert forall|d: int| e + 1 - 2048 <= d <= e && d >= 0 implies #[trigger] self.bits@[d % 2048] == (d <= old_h
                            && old_bits[d % 2048]) by {
                            if d < e {
                                lemma_mod_distinct(d, e as int);
                            }
                        }
                    }
                    k = k + 1;
                }
            }
            self.highest = c;
        }
        self.bits[(c % 2048) as usize] = true;
        proof {
            let h = self.highest as int;
            assert forall|d: int| 0 <= d <= h && d + 2047 >= h && d != c implies #[trigger] self.bits@[d % 2048] == (d <= old_h
                && old_bits[d % 2048]) by {
                if d < c {
                    lemma_mod_distinct(d, c as int);
                } else {
                    lemma_mod_distinct(c as int, d);
                }
            }
            assert(self@.marked =~= old(self)@.record(c as int).marked);
        }
    }
}

} // verus!
