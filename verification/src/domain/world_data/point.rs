use vstd::prelude::*;

verus! {

/// A map cell, `(x, y)`.
#[derive(Debug, Clone, Copy, PartialEq, Eq, Hash, Structural)]
pub struct Point(pub usize, pub usize);

/// Index of the first entry of `s` keyed by `p`, or -1.
pub open spec fn first_index(s: Seq<(Point, u32)>, p: Point) -> int
    decreases s.len(),
{
    if s.len() == 0 {
        -1
    } else if s[0].0 == p {
        0
    } else {
        let r = first_index(s.drop_first(), p);
        if r < 0 {
            -1
        } else {
            r + 1
        }
    }
}

proof fn lemma_first_index(s: Seq<(Point, u32)>, p: Point)
    ensures
        -1 <= first_index(s, p) < s.len(),
        first_index(s, p) == -1 <==> forall|i: int| 0 <= i < s.len() ==> s[i].0 != p,
        first_index(s, p) >= 0 ==> s[first_index(s, p)].0 == p && forall|j: int|
            0 <= j < first_index(s, p) ==> s[j].0 != p,
    decreases s.len(),
{
    if s.len() > 0 {
        lemma_first_index(s.drop_first(), p);
        if s[0].0 != p {
            if first_index(s.drop_first(), p) == -1 {
                assert forall|i: int| 0 <= i < s.len() implies s[i].0 != p by {
                    if i > 0 {
                        assert(s[i] == s.drop_first()[i - 1]);
                    }
                }
            } else {
                let r = first_index(s.drop_first(), p);
                assert forall|j: int| 0 <= j < r + 1 implies s[j].0 != p by {
                    if j > 0 {
                        assert(s[j] == s.drop_first()[j - 1]);
                    }
                }
                assert(s[r + 1] == s.drop_first()[r]);
            }
        }
    }
}

/// With keys unique, the entry holding key `p` is the one `first_index` finds.
proof fn lemma_first_index_at(s: Seq<(Point, u32)>, p: Point, i: int)
    requires
        0 <= i < s.len(),
        s[i].0 == p,
        forall|a: int, b: int| 0 <= a < b < s.len() ==> s[a].0 != s[b].0,
    ensures
        first_index(s, p) == i,
{
    lemma_first_index(s, p);
    let f = first_index(s, p);
    if f != i {
        if f < i {
            assert(s[f].0 != s[i].0);
        } else {
            assert(s[i].0 != p);
        }
    }
}

/// A finite map from cells to ids.
#[derive(Debug)]
pub struct PointMap {
    entries: Vec<(Point, u32)>,
}

impl View for PointMap {
    type V = Map<Point, u32>;

    closed spec fn view(&self) -> Map<Point, u32> {
        Map::new(
            |p: Point| first_index(self.entries@, p) >= 0,
            |p: Point| self.entries@[first_index(self.entries@, p)].1,
        )
    }
}

impl PointMap {
    #[verifier::type_invariant]
    spec fn unique_keys(self) -> bool {
        forall|a: int, b: int|
            0 <= a < b < self.entries@.len() ==> self.entries@[a].0 != self.entries@[b].0
    }

    pub fn new() -> (m: PointMap)
        ensures
            m@ == Map::<Point, u32>::empty(),
    {
        let m = PointMap { entries: Vec::new() };
        assert(m@ =~= Map::<Point, u32>::empty());
        m
    }

    fn find(&self, p: &Point) -> (r: Option<usize>)
        ensures
            match r {
                Some(i) => i < self.entries@.len() && self.entries@[i as int].0 == *p
                    && first_index(self.entries@, *p) == i,
                None => first_index(self.entries@, *p) == -1,
            },
    {
        proof {
            use_type_invariant(self);
            lemma_first_index(self.entries@, *p);
        }
        let mut i: usize = 0;
        while i < self.entries.len()
            invariant
                i <= self.entries@.len(),
                forall|j: int| 0 <= j < i ==> self.entries@[j].0 != *p,
                forall|a: int, b: int|
                    0 <= a < b < self.entries@.len() ==> self.entries@[a].0 != self.entries@[b].0,
            decreases self.entries.len() - i,
        {
            if self.entries[i].0 == *p {
                proof {
                    lemma_first_index_at(self.entries@, *p, i as int);
                }
                return Some(i);
            }
            i = i + 1;
        }
        None
    }

    pub fn get(&self, p: &Point) -> (r: Option<&u32>)
        ensures
            match r {
                Some(v) => self@.contains_key(*p) && self@[*p] == *v,
                None => !self@.contains_key(*p),
            },
    {
        match self.find(p) {
            Some(i) => Some(&self.entries[i].1),
            None => None,
        }
    }

    pub fn contains_key(&self, p: &Point) -> (b: bool)
        ensures
            b == self@.contains_key(*p),
    {
        self.find(p).is_some()
    }

    pub fn is_empty(&self) -> (b: bool)
        ensures
            b == (self@.dom() =~= Set::<Point>::empty()),
    {
        proof {
            if self.entries@.len() > 0 {
                let p = self.entries@[0].0;
                lemma_first_index(self.entries@, p);
                assert(self@.dom().contains(p));
            }
        }
        self.entries.len() == 0
    }

    /// Sets the id of `p`, returning the previous one.
    pub fn insert(&mut self, p: Point, v: u32) -> (prev: Option<u32>)
        ensures
            final(self)@ == old(self)@.insert(p, v),
            match prev {
                Some(x) => old(self)@.contains_key(p) && old(self)@[p] == x,
                None => !old(self)@.contains_key(p),
            },
    {
        proof {
            use_type_invariant(&*self);
        }
        let ghost before = self.entries@;
        match self.find(&p) {
            Some(i) => {
                let prev = self.entries[i].1;
                let mut entries: Vec<(Point, u32)> = Vec::new();
                std::mem::swap(&mut entries, &mut self.entries);
                entries.set(i, (p, v));
                proof {
                    let after = entries@;
                    assert forall|a: int, b: int|
                        0 <= a < b < after.len() implies after[a].0 != after[b].0 by {
                        if a != i && b != i {
                            assert(after[a] == before[a] && after[b] == before[b]);
                        } else if a == i {
                            assert(after[b] == before[b]);
                        } else {
                            assert(after[a] == before[a]);
                        }
                    }
                }
                self.entries = entries;
                proof {
                    let after = self.entries@;
                    assert forall|q: Point| #[trigger] first_index(after, q) == first_index(before, q) by {
                        lemma_first_index(before, q);
                        lemma_first_index(after, q);
                        if first_index(before, q) >= 0 {
                            lemma_first_index_at(after, q, first_index(before, q));
                        } else {
                            assert(forall|j: int| 0 <= j < after.len() ==> after[j].0 != q) by {
                                assert forall|j: int| 0 <= j < after.len() implies after[j].0 != q by {
                                    if j != i {
                                        assert(after[j] == before[j]);
                                    }
                                }
                            }
                        }
                    }
                    assert forall|q: Point|
                        #![trigger self@.contains_key(q)]
                        self@.contains_key(q) == old(self)@.insert(p, v).contains_key(q) && (
                        self@.contains_key(q) ==> self@[q] == old(self)@.insert(p, v)[q]) by {
                        lemma_first_index(before, q);
                        if q != p && first_index(before, q) >= 0 {
                            assert(after[first_index(before, q)] == before[first_index(before, q)]);
                        }
                    }
                    assert(self@ =~= old(self)@.insert(p, v));
                }
                Some(prev)
            },
            None => {
                let mut entries: Vec<(Point, u32)> = Vec::new();
                std::mem::swap(&mut entries, &mut self.entries);
                entries.push((p, v));
                proof {
                    let after = entries@;
                    lemma_first_index(before, p);
                    assert forall|a: int, b: int|
                        0 <= a < b < after.len() implies after[a].0 != after[b].0 by {
                        assert(after[a] == before[a]);
                        if b < before.len() {
                            assert(after[b] == before[b]);
                        }
                    }
                }
                self.entries = entries;
                proof {
                    let after = self.entries@;
                    assert forall|q: Point| #[trigger] first_index(after, q) == if q == p {
                        before.len() as int
                    } else {
                        first_index(before, q)
                    } by {
                        lemma_first_index(before, q);
                        lemma_first_index(after, q);
                        if q == p {
                            lemma_first_index_at(after, q, before.len() as int);
                        } else if first_index(before, q) >= 0 {
                            lemma_first_index_at(after, q, first_index(before, q));
                        } else {
                            assert forall|j: int| 0 <= j < after.len() implies after[j].0 != q by {
                                if j < before.len() {
                                    assert(after[j] == before[j]);
                                }
                            }
                        }
                    }
                    assert forall|q: Point|
                        #![trigger self@.contains_key(q)]
                        self@.contains_key(q) == old(self)@.insert(p, v).contains_key(q) && (
                        self@.contains_key(q) ==> self@[q] == old(self)@.insert(p, v)[q]) by {
                        lemma_first_index(before, q);
                        if q != p && first_index(before, q) >= 0 {
                            assert(after[first_index(before, q)] == before[first_index(before, q)]);
                        }
                    }
                    assert(self@ =~= old(self)@.insert(p, v));
                }
                None
            },
        }
    }

    /// Drops the entry of `p`, returning its id.
    pub fn remove(&mut self, p: &Point) -> (prev: Option<u32>)
        ensures
            final(self)@ == old(self)@.remove(*p),
            match prev {
                Some(x) => old(self)@.contains_key(*p) && old(self)@[*p] == x,
                None => !old(self)@.contains_key(*p),
            },
    {
        proof {
            use_type_invariant(&*self);
        }
        let ghost before = self.entries@;
        match self.find(p) {
            Some(i) => {
                let prev = self.entries[i].1;
                let mut entries: Vec<(Point, u32)> = Vec::new();
                std::mem::swap(&mut entries, &mut self.entries);
                entries.remove(i);
                proof {
                    let after = entries@;
                    assert forall|a: int, b: int|
                        0 <= a < b < after.len() implies after[a].0 != after[b].0 by {
                        let a2 = if a < i { a } else { a + 1 };
                        let b2 = if b < i { b } else { b + 1 };
                        assert(after[a] == before[a2] && after[b] == before[b2]);
                    }
                }
                self.entries = entries;
                proof {
                    let after = self.entries@;
                    assert forall|q: Point| #[trigger] first_index(after, q) == if q == *p {
                        -1
                    } else if first_index(before, q) < i {
                        first_index(before, q)
                    } else {
                        first_index(before, q) - 1
                    } by {
                        lemma_first_index(before, q);
                        lemma_first_index(after, q);
                        let f = first_index(before, q);
                        if q == *p {
                            assert forall|j: int| 0 <= j < after.len() implies after[j].0 != q by {
                                if j < i {
                                    assert(after[j] == before[j]);
                                    assert(before[j].0 != before[i as int].0);
                                } else {
                                    assert(after[j] == before[j + 1]);
                                    assert(before[i as int].0 != before[j + 1].0);
                                }
                            }
                        } else if f < 0 {
                            assert forall|j: int| 0 <= j < after.len() implies after[j].0 != q by {
                                if j < i {
                                    assert(after[j] == before[j]);
                                } else {
                                    assert(after[j] == before[j + 1]);
                                }
                            }
                        } else if f < i {
                            assert(after[f] == before[f]);
                            lemma_first_index_at(after, q, f);
                        } else {
                            assert(f != i);
                            assert(after[f - 1] == before[f]);
                            lemma_first_index_at(after, q, f - 1);
                        }
                    }
                    assert forall|q: Point|
                        #![trigger self@.contains_key(q)]
                        self@.contains_key(q) == old(self)@.remove(*p).contains_key(q) && (
                        self@.contains_key(q) ==> self@[q] == old(self)@.remove(*p)[q]) by {
                        lemma_first_index(before, q);
                        let f = first_index(before, q);
                        if q != *p && f >= 0 {
                            if f < i {
                                assert(after[f] == before[f]);
                            } else {
                                assert(after[f - 1] == before[f]);
                            }
                        }
                    }
                    assert(self@ =~= old(self)@.remove(*p));
                }
                Some(prev)
            },
            None => {
                assert(self@ =~= old(self)@.remove(*p));
                None
            },
        }
    }
}

/// A finite set of cells.
#[derive(Debug)]
pub struct PointSet {
    items: Vec<Point>,
}

impl View for PointSet {
    type V = Set<Point>;

    closed spec fn view(&self) -> Set<Point> {
        self.items@.to_set()
    }
}

impl PointSet {
    #[verifier::type_invariant]
    spec fn unique_items(self) -> bool {
        self.items@.no_duplicates()
    }

    pub fn new() -> (s: PointSet)
        ensures
            s@ == Set::<Point>::empty(),
    {
        let s = PointSet { items: Vec::new() };
        assert(s@ =~= Set::<Point>::empty());
        s
    }

    fn find(&self, p: &Point) -> (r: Option<usize>)
        ensures
            match r {
                Some(i) => i < self.items@.len() && self.items@[i as int] == *p,
                None => !self.items@.contains(*p),
            },
    {
        let mut i: usize = 0;
        while i < self.items.len()
            invariant
                i <= self.items@.len(),
                forall|j: int| 0 <= j < i ==> self.items@[j] != *p,
            decreases self.items.len() - i,
        {
            if self.items[i] == *p {
                return Some(i);
            }
            i = i + 1;
        }
        None
    }

    pub fn contains(&self, p: &Point) -> (b: bool)
        ensures
            b == self@.contains(*p),
    {
        self.find(p).is_some()
    }

    pub fn is_empty(&self) -> (b: bool)
        ensures
            b == (self@ =~= Set::<Point>::empty()),
    {
        proof {
            if self.items@.len() > 0 {
                assert(self@.contains(self.items@[0]));
            }
        }
        self.items.len() == 0
    }

    pub fn len(&self) -> (n: usize)
        ensures
            n == self@.len(),
    {
        proof {
            use_type_invariant(self);
            self.items@.unique_seq_to_set();
        }
        self.items.len()
    }

    /// Adds `p`; answers whether it was new.
    pub fn insert(&mut self, p: Point) -> (added: bool)
        ensures
            final(self)@ == old(self)@.insert(p),
            added == !old(self)@.contains(p),
    {
        proof {
            use_type_invariant(&*self);
        }
        match self.find(&p) {
            Some(_) => {
                assert(self@ =~= old(self)@.insert(p));
                false
            },
            None => {
                let ghost before = self.items@;
                let mut items: Vec<Point> = Vec::new();
                std::mem::swap(&mut items, &mut self.items);
                items.push(p);
                proof {
                    assert forall|a: int, b: int|
                        0 <= a < items@.len() && 0 <= b < items@.len() && a != b implies items@[a]
                        != items@[b] by {
                        if a < before.len() && b < before.len() {
                            assert(items@[a] == before[a] && items@[b] == before[b]);
                        } else if a < before.len() {
                            assert(items@[a] == before[a]);
                        } else {
                            assert(items@[b] == before[b]);
                        }
                    }
                }
                self.items = items;
                proof {
                    assert(self.items@ == before.push(p));
                    assert(self@ =~= old(self)@.insert(p)) by {
                        assert forall|q: Point| self.items@.contains(q) == (before.contains(q) || q
                            == p) by {
                            if self.items@.contains(q) {
                                let j = choose|j: int|
                                    0 <= j < self.items@.len() && self.items@[j] == q;
                                if j < before.len() {
                                    assert(before[j] == q);
                                }
                            }
                            if before.contains(q) {
                                let j = choose|j: int| 0 <= j < before.len() && before[j] == q;
                                assert(self.items@[j] == q);
                            }
                            if q == p {
                                assert(self.items@[before.len() as int] == q);
                            }
                        }
                    }
                }
                true
            },
        }
    }

    /// Drops `p`; answers whether it was there.
    pub fn remove(&mut self, p: &Point) -> (removed: bool)
        ensures
            final(self)@ == old(self)@.remove(*p),
            removed == old(self)@.contains(*p),
    {
        proof {
            use_type_invariant(&*self);
        }
        match self.find(p) {
            Some(i) => {
                let ghost before = self.items@;
                let mut items: Vec<Point> = Vec::new();
                std::mem::swap(&mut items, &mut self.items);
                items.remove(i);
                proof {
                    assert forall|a: int, b: int|
                        0 <= a < items@.len() && 0 <= b < items@.len() && a != b implies items@[a]
                        != items@[b] by {
                        let a2 = if a < i { a } else { a + 1 };
                        let b2 = if b < i { b } else { b + 1 };
                        assert(items@[a] == before[a2] && items@[b] == before[b2]);
                    }
                }
                self.items = items;
                proof {
                    let after = self.items@;
                    assert(after == before.remove(i as int));
                    assert forall|q: Point| after.contains(q) == (before.contains(q) && q != *p) by {
                        if after.contains(q) {
                            let j = choose|j: int| 0 <= j < after.len() && after[j] == q;
                            if j < i {
                                assert(before[j] == q);
                                assert(before[j] != before[i as int]);
                            } else {
                                assert(before[j + 1] == q);
                                assert(before[j + 1] != before[i as int]);
                            }
                        }
                        if before.contains(q) && q != *p {
                            let j = choose|j: int| 0 <= j < before.len() && before[j] == q;
                            assert(j != i);
                            if j < i {
                                assert(after[j] == q);
                            } else {
                                assert(after[j - 1] == q);
                            }
                        }
                    }
                    assert(self@ =~= old(self)@.remove(*p));
                }
                true
            },
            None => {
                assert(self@ =~= old(self)@.remove(*p));
                false
            },
        }
    }

    /// The cells, each once.
    pub fn to_vec(&self) -> (v: Vec<Point>)
        ensures
            v@.to_set() == self@,
            v@.no_duplicates(),
    {
        proof {
            use_type_invariant(self);
        }
        self.items.clone()
    }
}

} // verus!
