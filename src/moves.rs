//! A short list of columns kept in order of decreasing score.
use vstd::prelude::*;

verus! {

/// Scores do not increase along `s`.
pub open spec fn by_score(s: Seq<(usize, u32)>) -> bool {
    forall|i: int, j: int| 0 <= i < j < s.len() ==> s[i].1 >= s[j].1
}

/// Up to seven (column, score) records, best score first; records of equal
/// score stay in the order they were added.
pub struct SortedMoves {
    records: [(usize, u32); 7],
    n: usize,
}

impl View for SortedMoves {
    type V = Seq<(usize, u32)>;

    closed spec fn view(&self) -> Seq<(usize, u32)> {
        self.records@.take(self.n as int)
    }
}

impl SortedMoves {
    pub closed spec fn wf(self) -> bool {
        self.n <= 7 && by_score(self@)
    }

    pub fn new() -> (r: SortedMoves)
        ensures
            r.wf(),
            r@ == Seq::<(usize, u32)>::empty(),
    {
        let r = SortedMoves { records: [(0usize, 0u32); 7], n: 0 };
        assert(r@ =~= Seq::<(usize, u32)>::empty());
        r
    }

    /// Number of records.
    pub fn len(&self) -> (r: usize)
        requires
            self.wf(),
        ensures
            r == self@.len(),
            r <= 7,
    {
        self.n
    }

    /// Column of record `i`.
    pub fn column(&self, i: usize) -> (r: usize)
        requires
            self.wf(),
            i < self@.len(),
        ensures
            r == self@[i as int].0,
    {
        self.records[i].0
    }

    /// Adds a record after every record whose score is at least `score`.
    pub fn insert_sorted(&mut self, col: usize, score: u32)
        requires
            old(self).wf(),
            old(self)@.len() < 7,
        ensures
            final(self).wf(),
            exists|k: int|
                0 <= k <= old(self)@.len() && (forall|i: int| 0 <= i < k ==> #[trigger] old(self)@[i].1
                    >= score) && (forall|i: int| k <= i < old(self)@.len() ==> #[trigger] old(
                    self,
                )@[i].1 < score) && final(self)@ == old(self)@.take(k).push((col, score)) + old(
                    self,
                )@.skip(k),
    {
        let ghost s0 = self@;
        let ghost n0 = self.n as int;
        let mut pos = self.n;
        self.n = self.n + 1;
        while pos > 0 && self.records[pos - 1].1 < score
            invariant
                self.n == n0 + 1,
                n0 < 7,
                0 <= pos <= n0,
                s0.len() == n0,
                by_score(s0),
                forall|i: int| 0 <= i < pos ==> #[trigger] self.records@[i] == s0[i],
                forall|i: int| pos < i <= n0 ==> #[trigger] self.records@[i] == s0[i - 1],
                forall|i: int| pos <= i < n0 ==> #[trigger] s0[i].1 < score,
            decreases pos,
        {
            self.records[pos] = self.records[pos - 1];
            pos = pos - 1;
        }
        self.records[pos] = (col, score);
        proof {
            let k = pos as int;
            let s1 = self@;
            let e = s0.take(k).push((col, score)) + s0.skip(k);
            assert forall|i: int| 0 <= i < k implies #[trigger] s0[i].1 >= score by {
                if k > 0 {
                    assert(s0[k - 1].1 >= score);
                    assert(s0[i].1 >= s0[k - 1].1);
                }
            }
            assert(s1 =~= e);
        }
    }

    /// Adds a record of score 0 at the end.
    pub fn insert(&mut self, col: usize)
        requires
            old(self).wf(),
            old(self)@.len() < 7,
        ensures
            final(self).wf(),
            final(self)@ == old(self)@.push((col, 0u32)),
    {
        let ghost s0 = self@;
        self.records[self.n] = (col, 0);
        self.n = self.n + 1;
        assert(self@ =~= s0.push((col, 0u32)));
    }

    /// The columns of the records, in order.
    pub fn iter(&self) -> (r: Vec<usize>)
        requires
            self.wf(),
        ensures
            r@ == Seq::new(self@.len(), |i: int| self@[i].0),
    {
        let mut r: Vec<usize> = Vec::new();
        let mut i: usize = 0;
        while i < self.n
            invariant
                self.wf(),
                i <= self.n,
                r@ == Seq::new(i as nat, |j: int| self@[j].0),
            decreases self.n - i,
        {
            r.push(self.records[i].0);
            i = i + 1;
            assert(r@ =~= Seq::new(i as nat, |j: int| self@[j].0));
        }
        r
    }
}

} // verus!
