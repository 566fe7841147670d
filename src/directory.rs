use vstd::prelude::*;

verus! {

/// The name shown for a peer that the directory does not know.
pub open spec fn default_name() -> Seq<char> {
    seq!['a', 'n', 'o', 'n', 'i', 'm', 'o']
}

/// The name shown for `peer` under the mapping `names`.
pub open spec fn name_in(names: Map<Seq<char>, Seq<char>>, peer: Seq<char>) -> Seq<char> {
    if names.contains_key(peer) {
        names[peer]
    } else {
        default_name()
    }
}

/// The pair of views of a stored entry.
pub open spec fn entry_view(e: (String, String)) -> (Seq<char>, Seq<char>) {
    (e.0@, e.1@)
}

/// A mapping from peer identifiers to display names, with unique keys.
/// Entries are kept in the order in which their peers were first seen.
pub struct Directory {
    entries: Vec<(String, String)>,
    names: Ghost<Map<Seq<char>, Seq<char>>>,
}

impl View for Directory {
    type V = Map<Seq<char>, Seq<char>>;

    closed spec fn view(&self) -> Map<Seq<char>, Seq<char>> {
        self.names@
    }
}

impl Directory {
    /// The stored entries as pairs of views, in order.
    pub closed spec fn pairs(&self) -> Seq<(Seq<char>, Seq<char>)> {
        self.entries@.map_values(|e: (String, String)| entry_view(e))
    }

    /// Keys are unique, and the entries hold exactly the mapping.
    pub closed spec fn wf(&self) -> bool {
        let p = self.pairs();
        &&& forall|i: int, j: int|
            0 <= i < p.len() && 0 <= j < p.len() && i != j ==> #[trigger] p[i].0 != #[trigger] p[j].0
        &&& forall|k: Seq<char>|
            #[trigger] self.names@.contains_key(k) <==> exists|i: int| 0 <= i < p.len() && p[i].0 == k
        &&& forall|i: int| 0 <= i < p.len() ==> self.names@[#[trigger] p[i].0] == p[i].1
    }

    /// Every key of the directory appears once among its entries, and each
    /// entry agrees with the mapping.
    pub proof fn lemma_pairs(&self)
        requires
            self.wf(),
        ensures
            forall|i: int| 0 <= i < self.pairs().len() ==> #[trigger] self@.contains_key(self.pairs()[i].0)
                && self@[self.pairs()[i].0] == self.pairs()[i].1,
            forall|i: int, j: int|
                0 <= i < self.pairs().len() && 0 <= j < self.pairs().len() && i != j
                    ==> #[trigger] self.pairs()[i].0 != #[trigger] self.pairs()[j].0,
            forall|k: Seq<char>| #[trigger] self@.contains_key(k) ==>
                exists|i: int| 0 <= i < self.pairs().len() && self.pairs()[i].0 == k,
    {
        let p = self.pairs();
        assert forall|i: int| 0 <= i < p.len() implies #[trigger] self@.contains_key(p[i].0) by {
            assert(self.names@.contains_key(p[i].0));
        }
    }

    /// An empty directory.
    pub fn new() -> (r: Self)
        ensures
            r.wf(),
            r@ == Map::<Seq<char>, Seq<char>>::empty(),
            r.pairs() == Seq::<(Seq<char>, Seq<char>)>::empty(),
    {
        let r = Directory { entries: Vec::new(), names: Ghost(Map::empty()) };
        assert(r.pairs() =~= Seq::<(Seq<char>, Seq<char>)>::empty());
        r
    }

    /// The entries, in the order in which their peers were first seen.
    pub fn entries(&self) -> (r: &[(String, String)])
        ensures
            r@.map_values(|e: (String, String)| entry_view(e)) == self.pairs(),
    {
        self.entries.as_slice()
    }

    fn find(&self, peer: &String) -> (r: Option<usize>)
        requires
            self.wf(),
        ensures
            match r {
                Some(i) => i < self.pairs().len() && self.pairs()[i as int].0 == peer@
                    && self@.contains_key(peer@) && self@[peer@] == self.pairs()[i as int].1,
                None => !self@.contains_key(peer@),
            },
    {
        let mut i: usize = 0;
        while i < self.entries.len()
            invariant
                self.wf(),
                i <= self.entries@.len(),
                forall|j: int| 0 <= j < i ==> #[trigger] self.pairs()[j].0 != peer@,
            decreases self.entries@.len() - i,
        {
            if self.entries[i].0 == *peer {
                assert(self.pairs()[i as int] == entry_view(self.entries@[i as int]));
                return Some(i);
            }
            assert(self.pairs()[i as int] == entry_view(self.entries@[i as int]));
            i = i + 1;
        }
        None
    }

    /// Whether `peer` has a registered name.
    pub fn contains(&self, peer: &String) -> (r: bool)
        requires
            self.wf(),
        ensures
            r == self@.contains_key(peer@),
    {
        self.find(peer).is_some()
    }

    /// The registered name of `peer`, if any.
    pub fn lookup(&self, peer: &String) -> (r: Option<String>)
        requires
            self.wf(),
        ensures
            match r {
                Some(name) => self@.contains_key(peer@) && name@ == self@[peer@],
                None => !self@.contains_key(peer@),
            },
    {
        match self.find(peer) {
            Some(i) => {
                assert(self.pairs()[i as int] == entry_view(self.entries@[i as int]));
                Some(self.entries[i].1.clone())
            },
            None => None,
        }
    }

    /// Registers `name` for `peer` unless `peer` already has a name; the
    /// result tells whether an entry was added. A known peer keeps its name.
    pub fn insert_if_absent(&mut self, peer: String, name: String) -> (r: bool)
        requires
            old(self).wf(),
        ensures
            final(self).wf(),
            r == !old(self)@.contains_key(peer@),
            r ==> final(self)@ == old(self)@.insert(peer@, name@)
                && final(self).pairs() == old(self).pairs().push((peer@, name@)),
            !r ==> final(self)@ == old(self)@ && final(self).pairs() == old(self).pairs(),
    {
        if self.find(&peer).is_some() {
            return false;
        }
        let ghost old_pairs = self.pairs();
        let ghost k = peer@;
        let ghost v = name@;
        self.entries.push((peer, name));
        self.names = Ghost(self.names@.insert(k, v));
        assert(self.pairs() =~= old_pairs.push((k, v)));
        proof {
            let p = self.pairs();
            assert forall|q: Seq<char>| #[trigger] self.names@.contains_key(q) implies
                exists|i: int| 0 <= i < p.len() && p[i].0 == q by {
                if q == k {
                    assert(p[old_pairs.len() as int].0 == q);
                } else {
                    let i = choose|i: int| 0 <= i < old_pairs.len() && old_pairs[i].0 == q;
                    assert(p[i].0 == q);
                }
            }
            assert forall|i: int| 0 <= i < p.len() implies self.names@[#[trigger] p[i].0] == p[i].1 by {
                if i < old_pairs.len() {
                    assert(old_pairs[i].0 != k);
                }
            }
        }
        true
    }

    /// Removes `peer` and its name; the result tells whether it was present.
    /// The other entries keep their order.
    pub fn remove(&mut self, peer: &String) -> (r: bool)
        requires
            old(self).wf(),
        ensures
            final(self).wf(),
            r == old(self)@.contains_key(peer@),
            final(self)@ == old(self)@.remove(peer@),
    {
        match self.find(peer) {
            None => {
                assert(self.names@.remove(peer@) =~= self.names@);
                false
            },
            Some(idx) => {
                let ghost old_pairs = self.pairs();
                let ghost k = peer@;
                let _ = self.entries.remove(idx);
                self.names = Ghost(self.names@.remove(k));
                let ghost p = self.pairs();
                assert(p =~= old_pairs.remove(idx as int));
                proof {
                    assert forall|i: int, j: int|
                        0 <= i < p.len() && 0 <= j < p.len() && i != j implies
                        #[trigger] p[i].0 != #[trigger] p[j].0 by {
                        let oi = if i < idx { i } else { i + 1 };
                        let oj = if j < idx { j } else { j + 1 };
                        assert(p[i] == old_pairs[oi]);
                        assert(p[j] == old_pairs[oj]);
                    }
                    assert forall|q: Seq<char>| #[trigger] self.names@.contains_key(q) implies
                        exists|i: int| 0 <= i < p.len() && p[i].0 == q by {
                        let oi = choose|i: int| 0 <= i < old_pairs.len() && old_pairs[i].0 == q;
                        assert(oi != idx);
                        let i = if oi < idx { oi } else { oi - 1 };
                        assert(p[i] == old_pairs[oi]);
                    }
                    assert forall|q: Seq<char>|
                        (exists|i: int| 0 <= i < p.len() && p[i].0 == q) implies
                        #[trigger] self.names@.contains_key(q) by {
                        let i = choose|i: int| 0 <= i < p.len() && p[i].0 == q;
                        let oi = if i < idx { i } else { i + 1 };
                        assert(p[i] == old_pairs[oi]);
                        assert(old_pairs[oi].0 != old_pairs[idx as int].0);
                    }
                    assert forall|i: int| 0 <= i < p.len() implies
                        self.names@[#[trigger] p[i].0] == p[i].1 by {
                        let oi = if i < idx { i } else { i + 1 };
                        assert(p[i] == old_pairs[oi]);
                        assert(old_pairs[oi].0 != old_pairs[idx as int].0);
                    }
                }
                true
            },
        }
    }
}

} // verus!
