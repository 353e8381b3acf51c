//! The chip graph: a map from chip name to [`Chip`], scoped to one
//! project-resolution pass.
//!
//! Entries are created on first reference as unresolved placeholders and
//! upgraded in place when the resolver commits a cost.  The graph is backed
//! by a vector of entries with pairwise-distinct names; its abstract view is
//! the finite map from name to chip.

use vstd::prelude::*;

use crate::chip::Chip;

verus! {

/// One stored entry of a chip graph.
struct ChipEntry {
    name: String,
    chip: Chip,
}

/// Map from chip name to chip entry, the memoization table of one
/// resolution pass.
pub struct ChipGraph {
    entries: Vec<ChipEntry>,
}

/// The finite map induced by a sequence of (name, chip) pairs; later pairs
/// override earlier ones with the same name.
pub open spec fn map_of(s: Seq<(Seq<char>, Chip)>) -> Map<Seq<char>, Chip>
    decreases s.len(),
{
    if s.len() == 0 {
        Map::empty()
    } else {
        map_of(s.drop_last()).insert(s.last().0, s.last().1)
    }
}

/// Pairwise distinctness of the names of a pair sequence.
pub open spec fn distinct_names(s: Seq<(Seq<char>, Chip)>) -> bool {
    forall|i: int, j: int| 0 <= i < j < s.len() ==> s[i].0 != s[j].0
}

/// If no pair of `s` carries the name `k`, the induced map has no key `k`.
proof fn lemma_map_of_not_contains(s: Seq<(Seq<char>, Chip)>, k: Seq<char>)
    requires
        forall|i: int| 0 <= i < s.len() ==> s[i].0 != k,
    ensures
        !map_of(s).contains_key(k),
    decreases s.len(),
{
    if s.len() > 0 {
        lemma_map_of_not_contains(s.drop_last(), k);
    }
}

/// With distinct names, the induced map maps each stored name to its chip.
proof fn lemma_map_of_contains_at(s: Seq<(Seq<char>, Chip)>, i: int)
    requires
        distinct_names(s),
        0 <= i < s.len(),
    ensures
        map_of(s).contains_key(s[i].0),
        map_of(s)[s[i].0] == s[i].1,
    decreases s.len(),
{
    if i < s.len() - 1 {
        lemma_map_of_contains_at(s.drop_last(), i);
    }
}

/// With distinct names, replacing the chip of the pair at `i` acts on the
/// induced map as an insert of the same name.
proof fn lemma_map_of_update(s: Seq<(Seq<char>, Chip)>, i: int, chip: Chip)
    requires
        distinct_names(s),
        0 <= i < s.len(),
    ensures
        map_of(s.update(i, (s[i].0, chip))) == map_of(s).insert(s[i].0, chip),
    decreases s.len(),
{
    let u = s.update(i, (s[i].0, chip));
    if i == s.len() - 1 {
        assert(u.drop_last() =~= s.drop_last());
        assert(map_of(u) =~= map_of(s).insert(s[i].0, chip));
    } else {
        lemma_map_of_update(s.drop_last(), i, chip);
        assert(u.drop_last() =~= s.drop_last().update(i, (s[i].0, chip)));
        assert(u.last() == s.last());
        assert(map_of(u) =~= map_of(s).insert(s[i].0, chip));
    }
}

impl View for ChipGraph {
    type V = Map<Seq<char>, Chip>;

    closed spec fn view(&self) -> Map<Seq<char>, Chip> {
        map_of(self.seq_view())
    }
}

impl ChipGraph {
    /// The stored (name, chip) pairs, in storage order.
    pub closed spec fn seq_view(&self) -> Seq<(Seq<char>, Chip)> {
        self.entries@.map(|i: int, e: ChipEntry| (e.name@, e.chip))
    }

    /// Well-formedness: stored names are pairwise distinct, so each name has
    /// exactly one entry.
    pub closed spec fn wf(&self) -> bool {
        distinct_names(self.seq_view())
    }

    /// The abstract view is the map induced by the stored pairs.
    pub proof fn lemma_view_is_map_of_seq(&self)
        ensures
            self@ == map_of(self.seq_view()),
            self.wf() ==> distinct_names(self.seq_view()),
    {
    }

    /// In a well-formed graph the stored names are pairwise distinct.
    pub proof fn lemma_wf_distinct(&self, i: int, j: int)
        requires
            self.wf(),
            0 <= i < self.seq_view().len(),
            0 <= j < self.seq_view().len(),
            i != j,
        ensures
            self.seq_view()[i].0 != self.seq_view()[j].0,
    {
    }

    /// Every stored pair of a well-formed graph is in the view, and every
    /// key of the view is a stored name.
    pub proof fn lemma_seq_view_agrees(&self, i: int)
        requires
            self.wf(),
            0 <= i < self.seq_view().len(),
        ensures
            self@.contains_key(self.seq_view()[i].0),
            self@[self.seq_view()[i].0] == self.seq_view()[i].1,
    {
        lemma_map_of_contains_at(self.seq_view(), i);
    }

    /// An empty graph.
    pub fn new() -> (g: ChipGraph)
        ensures
            g.wf(),
            g@ == Map::<Seq<char>, Chip>::empty(),
            g.seq_view() == Seq::<(Seq<char>, Chip)>::empty(),
    {
        let g = ChipGraph { entries: Vec::new() };
        proof {
            assert(g.seq_view() =~= Seq::<(Seq<char>, Chip)>::empty());
        }
        g
    }

    /// Number of stored entries.
    pub fn num_entries(&self) -> (n: usize)
        ensures
            n == self.seq_view().len(),
    {
        self.entries.len()
    }

    /// Name of the entry at position `i` of the storage order.
    pub fn name_at(&self, i: usize) -> (r: &String)
        requires
            i < self.seq_view().len(),
        ensures
            r@ == self.seq_view()[i as int].0,
    {
        &self.entries[i].name
    }

    /// Chip of the entry at position `i` of the storage order.
    pub fn chip_at(&self, i: usize) -> (r: Chip)
        requires
            i < self.seq_view().len(),
        ensures
            r == self.seq_view()[i as int].1,
    {
        self.entries[i].chip
    }

    /// Position of the entry named `name`, if any.
    fn find_index(&self, name: &String) -> (r: Option<usize>)
        requires
            self.wf(),
        ensures
            match r {
                Some(i) => i < self.seq_view().len() && self.seq_view()[i as int].0 == name@
                    && self@.contains_key(name@),
                None => !self@.contains_key(name@),
            },
    {
        let n = self.entries.len();
        let mut i: usize = 0;
        while i < n
            invariant
                self.wf(),
                n == self.seq_view().len(),
                i <= n,
                forall|j: int| 0 <= j < i ==> self.seq_view()[j].0 != name@,
            decreases n - i,
        {
            if self.entries[i].name == *name {
                proof {
                    lemma_map_of_contains_at(self.seq_view(), i as int);
                }
                return Some(i);
            }
            i += 1;
        }
        proof {
            lemma_map_of_not_contains(self.seq_view(), name@);
        }
        None
    }

    /// Look up a chip by name.
    pub fn get(&self, name: &String) -> (r: Option<Chip>)
        requires
            self.wf(),
        ensures
            match r {
                Some(c) => self@.contains_key(name@) && c == self@[name@],
                None => !self@.contains_key(name@),
            },
    {
        match self.find_index(name) {
            Some(i) => {
                proof {
                    lemma_map_of_contains_at(self.seq_view(), i as int);
                }
                Some(self.entries[i].chip)
            }
            None => None,
        }
    }

    /// Insert or replace the entry for `name`.
    pub fn put(&mut self, name: String, chip: Chip)
        requires
            old(self).wf(),
        ensures
            final(self).wf(),
            final(self)@ == old(self)@.insert(name@, chip),
            old(self)@.contains_key(name@) ==> final(self).seq_view().len()
                == old(self).seq_view().len(),
            !old(self)@.contains_key(name@) ==> final(self).seq_view()
                == old(self).seq_view().push((name@, chip)),
    {
        let ghost nv = name@;
        let ghost old_seq = self.seq_view();
        match self.find_index(&name) {
            Some(i) => {
                self.entries[i] = ChipEntry { name, chip };
                proof {
                    assert(self.seq_view() =~= old_seq.update(i as int, (nv, chip)));
                    lemma_map_of_update(old_seq, i as int, chip);
                    assert forall|a: int, b: int|
                        0 <= a < b < self.seq_view().len() implies self.seq_view()[a].0
                        != self.seq_view()[b].0 by {
                        assert(old_seq[a].0 != old_seq[b].0);
                    }
                }
            }
            None => {
                self.entries.push(ChipEntry { name, chip });
                proof {
                    assert(self.seq_view() =~= old_seq.push((nv, chip)));
                    assert(self.seq_view().drop_last() =~= old_seq);
                    assert forall|j: int| 0 <= j < old_seq.len() implies old_seq[j].0 != nv by {
                        lemma_map_of_contains_at(old_seq, j);
                    }
                }
            }
        }
    }
}

} // verus!
