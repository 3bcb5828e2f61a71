use vstd::prelude::*;

verus! {

/// Every pair of the lists, in order: for each entry `(id1, [id2, id2', ...])` the pairs
/// `(id1, id2), (id1, id2'), ...`.
pub open spec fn flat_pairs(entries: Seq<(usize, Seq<usize>)>) -> Seq<(usize, usize)>
    decreases entries.len(),
{
    if entries.len() == 0 {
        Seq::empty()
    } else {
        flat_pairs(entries.drop_last()) + entry_pairs(entries.last())
    }
}

/// The pairs of one entry.
pub open spec fn entry_pairs(e: (usize, Seq<usize>)) -> Seq<(usize, usize)> {
    e.1.map_values(|b: usize| (e.0, b))
}

/// The first `n` candidates, less those whose `keep` flag is false, in order.
pub open spec fn select_upto(candidates: Seq<(usize, usize)>, keep: Seq<bool>, n: int) -> Seq<(usize, usize)>
    decreases n,
{
    if n <= 0 {
        Seq::empty()
    } else if keep[n - 1] {
        select_upto(candidates, keep, n - 1).push(candidates[n - 1])
    } else {
        select_upto(candidates, keep, n - 1)
    }
}

/// The candidates whose `keep` flag is true, in order.
pub open spec fn select(candidates: Seq<(usize, usize)>, keep: Seq<bool>) -> Seq<(usize, usize)> {
    select_upto(candidates, keep, candidates.len() as int)
}

/// `n`, capped at the largest `usize`.
pub open spec fn saturated(n: int) -> int {
    if n > usize::MAX {
        usize::MAX as int
    } else {
        n
    }
}

/// The pairs `p` and `q` name the same two particles, in either order.
pub open spec fn same_pair(p: (usize, usize), q: (usize, usize)) -> bool {
    p == q || (p.0 == q.1 && p.1 == q.0)
}

/// No pair joins a particle to itself, and no two particles are paired twice,
/// in either order.
pub open spec fn no_repeats(s: Seq<(usize, usize)>) -> bool {
    &&& forall|i: int| 0 <= i < s.len() ==> (#[trigger] s[i]).0 != s[i].1
    &&& forall|i: int, j: int| 0 <= i < j < s.len() ==> !same_pair(#[trigger] s[i], #[trigger] s[j])
}

/// The entries are grouped as tightly as the pairs allow: no entry is empty, and no two
/// neighbouring entries share their first particle.
pub open spec fn grouped(entries: Seq<(usize, Seq<usize>)>) -> bool {
    &&& forall|h: int| 0 <= h < entries.len() ==> (#[trigger] entries[h]).1.len() > 0
    &&& forall|h: int| 0 < h < entries.len() ==> (#[trigger] entries[h]).0 != entries[h - 1].0
}

/// For each particle `id1`, the particles close enough to it to be checked for an
/// interaction. Each pair of particles is meant to appear once.
pub struct VerletLists {
    verlet_lists: Vec<(usize, Vec<usize>)>,
    num_pairs: usize,
}

impl VerletLists {
    /// The entries `(id1, [id2, ...])`, in order.
    pub closed spec fn entries(&self) -> Seq<(usize, Seq<usize>)> {
        self.verlet_lists@.map_values(|e: (usize, Vec<usize>)| (e.0, e.1@))
    }

    /// Every pair, in the order in which iteration visits them.
    pub open spec fn pair_seq(&self) -> Seq<(usize, usize)> {
        flat_pairs(self.entries())
    }

    pub closed spec fn wf(&self) -> bool {
        self.num_pairs == saturated(self.pair_seq().len() as int)
    }

    /// The lists that hold the entries `v`.
    pub closed spec fn built_from(v: Vec<(usize, Vec<usize>)>) -> Self {
        VerletLists { verlet_lists: v, num_pairs: saturated(flat_pairs(view_entries(v@)).len() as int) as usize }
    }

    /// What the lists built from `v` hold.
    pub proof fn lemma_built_from(v: Vec<(usize, Vec<usize>)>)
        ensures
            Self::built_from(v).wf(),
            Self::built_from(v).entries() == view_entries(v@),
    {
    }

    /// Lists holding the given entries, in the given order.
    pub fn new(entries: Vec<(usize, Vec<usize>)>) -> (r: Self)
        ensures
            r == Self::built_from(entries),
            r.wf(),
            r.entries() == view_entries(entries@),
    {
        let ghost es = entries@.map_values(|e: (usize, Vec<usize>)| (e.0, e.1@));
        let mut num_pairs: usize = 0;
        let mut h: usize = 0;
        while h < entries.len()
            invariant
                h <= entries@.len(),
                es == entries@.map_values(|e: (usize, Vec<usize>)| (e.0, e.1@)),
                num_pairs == saturated(flat_pairs(es.take(h as int)).len() as int),
            decreases entries@.len() - h,
        {
            proof {
                lemma_flat_pairs_take_step(es, h as int);
            }
            let n = entries[h].1.len();
            num_pairs = num_pairs.saturating_add(n);
            h = h + 1;
        }
        proof {
            assert(es.take(h as int) =~= es);
        }
        VerletLists { verlet_lists: entries, num_pairs }
    }

    /// The number of pairs in the lists (at most the largest `usize`).
    pub fn num_pairs(&self) -> (r: usize)
        requires
            self.wf(),
        ensures
            r == saturated(self.pair_seq().len() as int),
    {
        self.num_pairs
    }

    /// Lists holding exactly the candidate pairs whose `keep` flag is true, in order,
    /// with the consecutive pairs of one first particle gathered into one entry.
    pub fn from_candidates(candidates: &Vec<(usize, usize)>, keep: &Vec<bool>) -> (r: Self)
        requires
            keep@.len() == candidates@.len(),
        ensures
            r.wf(),
            r.pair_seq() == select(candidates@, keep@),
            grouped(r.entries()),
    {
        let mut lists: Vec<(usize, Vec<usize>)> = Vec::new();
        let mut current: Vec<usize> = Vec::new();
        let mut current_id: usize = 0;
        let mut count: usize = 0;
        let mut k: usize = 0;
        while k < candidates.len()
            invariant
                k <= candidates@.len(),
                keep@.len() == candidates@.len(),
                count <= k,
                flat_pairs(view_entries(lists@)) + entry_pairs((current_id, current@)) == select_upto(
                    candidates@,
                    keep@,
                    k as int,
                ),
                count == select_upto(candidates@, keep@, k as int).len(),
                grouped(view_entries(lists@)),
                lists@.len() > 0 ==> current@.len() > 0,
                current@.len() > 0 && lists@.len() > 0 ==> lists@.last().0 != current_id,
            decreases candidates@.len() - k,
        {
            let ghost before = select_upto(candidates@, keep@, k as int);
            if keep[k] {
                let (a, b) = candidates[k];
                if current.len() > 0 && a != current_id {
                    let ghost old_lists = lists@;
                    let ghost done = (current_id, current@);
                    let mut finished: Vec<usize> = Vec::new();
                    std::mem::swap(&mut current, &mut finished);
                    lists.push((current_id, finished));
                    proof {
                        assert(view_entries(lists@) =~= view_entries(old_lists).push(done));
                        assert(view_entries(lists@).drop_last() =~= view_entries(old_lists));
                        assert(entry_pairs((current_id, current@)) =~= Seq::<(usize, usize)>::empty());
                    }
                }
                let ghost mid = current@;
                let ghost mid_id = current_id;
                current_id = a;
                current.push(b);
                count = count + 1;
                proof {
                    if mid.len() > 0 {
                        assert(mid_id == a);
                    }
                    assert(entry_pairs((current_id, current@)) =~= entry_pairs((mid_id, mid)).push((a, b)));
                    assert(select_upto(candidates@, keep@, k + 1) == before.push(candidates@[k as int]));
                }
            } else {
                proof {
                    assert(select_upto(candidates@, keep@, k + 1) == before);
                }
            }
            k = k + 1;
        }
        proof {
            assert(select_upto(candidates@, keep@, k as int) == select(candidates@, keep@));
        }
        if current.len() > 0 {
            let ghost old_lists = lists@;
            let ghost done = (current_id, current@);
            lists.push((current_id, current));
            proof {
                assert(view_entries(lists@) =~= view_entries(old_lists).push(done));
                assert(view_entries(lists@).drop_last() =~= view_entries(old_lists));
            }
        } else {
            proof {
                assert(entry_pairs((current_id, current@)) =~= Seq::<(usize, usize)>::empty());
                assert(flat_pairs(view_entries(lists@)) + Seq::<(usize, usize)>::empty() =~= flat_pairs(view_entries(lists@)));
            }
        }
        let r = VerletLists { verlet_lists: lists, num_pairs: count };
        proof {
            assert(r.entries() == view_entries(lists@));
        }
        r
    }

    /// Every pair, in order.
    pub fn pairs(&self) -> (r: Vec<(usize, usize)>)
        ensures
            r@ == self.pair_seq(),
    {
        let ghost es = self.entries();
        let mut out: Vec<(usize, usize)> = Vec::new();
        let mut h: usize = 0;
        while h < self.verlet_lists.len()
            invariant
                h <= es.len(),
                es == self.entries(),
                out@ == flat_pairs(es.take(h as int)),
            decreases es.len() - h,
        {
            let id1 = self.verlet_lists[h].0;
            let partners = &self.verlet_lists[h].1;
            let mut s: usize = 0;
            while s < partners.len()
                invariant
                    h < es.len(),
                    es == self.entries(),
                    partners@ == es[h as int].1,
                    id1 == es[h as int].0,
                    s <= partners@.len(),
                    out@ == flat_pairs(es.take(h as int)) + entry_pairs(es[h as int]).take(s as int),
                decreases partners@.len() - s,
            {
                out.push((id1, partners[s]));
                s = s + 1;
                proof {
                    assert(out@ =~= flat_pairs(es.take(h as int)) + entry_pairs(es[h as int]).take(s as int));
                }
            }
            proof {
                lemma_flat_pairs_take_step(es, h as int);
                assert(entry_pairs(es[h as int]).take(s as int) =~= entry_pairs(es[h as int]));
            }
            h = h + 1;
        }
        proof {
            assert(es.take(h as int) =~= es);
        }
        out
    }

    /// An iterator over every pair, starting at the first.
    pub fn into_iter(&self) -> (r: VLIter<'_>)
        ensures
            r.wf(),
            r.source() == self.pair_seq(),
            r.position() == 0,
    {
        let r = VLIter { verlet_lists: self, head_count: 0, secondary_count: 0 };
        proof {
            assert(self.entries().take(0) =~= Seq::<(usize, Seq<usize>)>::empty());
        }
        r
    }
}

impl From<Vec<(usize, Vec<usize>)>> for VerletLists {
    /// Lists holding the given entries; see `VerletLists::new`.
    fn from(value: Vec<(usize, Vec<usize>)>) -> (r: Self) {
        VerletLists::new(value)
    }
}

impl vstd::std_specs::convert::FromSpecImpl<Vec<(usize, Vec<usize>)>> for VerletLists {
    open spec fn obeys_from_spec() -> bool {
        true
    }

    open spec fn from_spec(v: Vec<(usize, Vec<usize>)>) -> Self {
        VerletLists::built_from(v)
    }
}

/// The view of a vector of entries.
pub open spec fn view_entries(v: Seq<(usize, Vec<usize>)>) -> Seq<(usize, Seq<usize>)> {
    v.map_values(|e: (usize, Vec<usize>)| (e.0, e.1@))
}

/// Walks the pairs of a `VerletLists` in order: entry by entry, and within an entry
/// partner by partner.
pub struct VLIter<'a> {
    verlet_lists: &'a VerletLists,
    head_count: usize,
    secondary_count: usize,
}

impl<'a> VLIter<'a> {
    /// The pairs being walked.
    pub closed spec fn source(&self) -> Seq<(usize, usize)> {
        self.verlet_lists.pair_seq()
    }

    /// How many pairs have been handed out so far.
    pub closed spec fn position(&self) -> int {
        flat_pairs(self.verlet_lists.entries().take(self.head_count as int)).len() + self.secondary_count
    }

    pub closed spec fn wf(&self) -> bool {
        let es = self.verlet_lists.entries();
        &&& self.head_count <= es.len()
        &&& self.head_count < es.len() ==> self.secondary_count <= es[self.head_count as int].1.len()
        &&& self.head_count == es.len() ==> self.secondary_count == 0
    }

    /// The next pair, or `None` once every pair has been handed out.
    pub fn next(&mut self) -> (r: Option<(usize, usize)>)
        requires
            old(self).wf(),
        ensures
            final(self).wf(),
            final(self).source() == old(self).source(),
            old(self).position() < old(self).source().len() ==> r == Some(old(self).source()[old(self).position()])
                && final(self).position() == old(self).position() + 1,
            old(self).position() >= old(self).source().len() ==> r is None && final(self).position()
                == old(self).position(),
    {
        let ghost es = self.verlet_lists.entries();
        let ghost pos = self.position();
        let vl = &self.verlet_lists.verlet_lists;
        while self.head_count < vl.len() && self.secondary_count >= vl[self.head_count].1.len()
            invariant
                es == self.verlet_lists.entries(),
                vl@.len() == es.len(),
                forall|h: int| 0 <= h < es.len() ==> #[trigger] vl@[h].1@.len() == es[h].1.len(),
                self.wf(),
                self.position() == pos,
                self.verlet_lists == old(self).verlet_lists,
            decreases es.len() - self.head_count,
        {
            proof {
                lemma_flat_pairs_take_step(es, self.head_count as int);
            }
            self.head_count = self.head_count + 1;
            self.secondary_count = 0;
        }
        proof {
            lemma_flat_pairs_len_take(es, self.head_count as int);
            assert(es.take(es.len() as int) =~= es);
        }
        if self.head_count == vl.len() {
            return None;
        }
        let h = self.head_count;
        let s = self.secondary_count;
        let r = (vl[h].0, vl[h].1[s]);
        proof {
            lemma_flat_pairs_index(es, h as int, s as int);
        }
        self.secondary_count = s + 1;
        Some(r)
    }
}

/// Taking one more entry adds that entry's pairs.
proof fn lemma_flat_pairs_take_step(es: Seq<(usize, Seq<usize>)>, h: int)
    requires
        0 <= h < es.len(),
    ensures
        flat_pairs(es.take(h + 1)) == flat_pairs(es.take(h)) + entry_pairs(es[h]),
        flat_pairs(es.take(h + 1)).len() == flat_pairs(es.take(h)).len() + es[h].1.len(),
{
    assert(es.take(h + 1).drop_last() =~= es.take(h));
}

proof fn lemma_flat_pairs_append(a: Seq<(usize, Seq<usize>)>, b: Seq<(usize, Seq<usize>)>)
    ensures
        flat_pairs(a + b) == flat_pairs(a) + flat_pairs(b),
    decreases b.len(),
{
    if b.len() == 0 {
        assert(a + b =~= a);
        assert(flat_pairs(a) + flat_pairs(b) =~= flat_pairs(a));
    } else {
        lemma_flat_pairs_append(a, b.drop_last());
        assert((a + b).drop_last() =~= a + b.drop_last());
        assert(flat_pairs(a + b) =~= flat_pairs(a) + flat_pairs(b));
    }
}

/// The pairs of the first `h` entries are at least as many as the pairs of all entries
/// only when `h` takes every entry that has a pair.
proof fn lemma_flat_pairs_len_take(es: Seq<(usize, Seq<usize>)>, h: int)
    requires
        0 <= h <= es.len(),
    ensures
        flat_pairs(es.take(h)).len() <= flat_pairs(es).len(),
{
    assert(es =~= es.take(h) + es.skip(h));
    lemma_flat_pairs_append(es.take(h), es.skip(h));
}

/// Where the `s`-th partner of entry `h` sits among all pairs.
proof fn lemma_flat_pairs_index(es: Seq<(usize, Seq<usize>)>, h: int, s: int)
    requires
        0 <= h < es.len(),
        0 <= s < es[h].1.len(),
    ensures
        flat_pairs(es.take(h)).len() + s < flat_pairs(es).len(),
        flat_pairs(es)[flat_pairs(es.take(h)).len() + s] == (es[h].0, es[h].1[s]),
{
    lemma_flat_pairs_take_step(es, h);
    assert(es =~= es.take(h + 1) + es.skip(h + 1));
    lemma_flat_pairs_append(es.take(h + 1), es.skip(h + 1));
}

/// `p` is one of the first `n` candidates.
pub open spec fn among_first(p: (usize, usize), candidates: Seq<(usize, usize)>, n: int) -> bool {
    exists|j: int| 0 <= j < n && candidates[j] == p
}

/// Selecting some of the pairs of a sequence without repeats leaves a sequence without
/// repeats.
pub proof fn lemma_select_no_repeats(candidates: Seq<(usize, usize)>, keep: Seq<bool>, n: int)
    requires
        0 <= n <= candidates.len(),
        keep.len() == candidates.len(),
        no_repeats(candidates),
    ensures
        no_repeats(select_upto(candidates, keep, n)),
        forall|i: int|
            0 <= i < select_upto(candidates, keep, n).len() ==> among_first(
                #[trigger] select_upto(candidates, keep, n)[i],
                candidates,
                n,
            ),
    decreases n,
{
    if n > 0 {
        lemma_select_no_repeats(candidates, keep, n - 1);
        let prev = select_upto(candidates, keep, n - 1);
        let cur = select_upto(candidates, keep, n);
        assert forall|i: int| 0 <= i < prev.len() implies among_first(#[trigger] prev[i], candidates, n) by {
            assert(among_first(prev[i], candidates, n - 1));
            let j = choose|j: int| 0 <= j < n - 1 && candidates[j] == prev[i];
            assert(0 <= j < n && candidates[j] == prev[i]);
        }
        if keep[n - 1] {
            assert forall|i: int| 0 <= i < cur.len() implies among_first(#[trigger] cur[i], candidates, n) by {
                if i < prev.len() {
                    assert(cur[i] == prev[i]);
                    assert(among_first(prev[i], candidates, n));
                } else {
                    assert(cur[i] == candidates[n - 1]);
                }
            }
            assert forall|i: int, j: int| 0 <= i < j < cur.len() implies !same_pair(#[trigger] cur[i], #[trigger] cur[j]) by {
                if j < prev.len() {
                    assert(cur[i] == prev[i] && cur[j] == prev[j]);
                } else {
                    assert(cur[i] == prev[i]);
                    assert(among_first(prev[i], candidates, n - 1));
                    let m = choose|m: int| 0 <= m < n - 1 && candidates[m] == prev[i];
                    assert(!same_pair(candidates[m], candidates[n - 1]));
                }
            }
            assert forall|i: int| 0 <= i < cur.len() implies (#[trigger] cur[i]).0 != cur[i].1 by {
                if i < prev.len() {
                    assert(cur[i] == prev[i]);
                } else {
                    assert(cur[i] == candidates[n - 1]);
                }
            }
        }
    }
}

} // verus!
