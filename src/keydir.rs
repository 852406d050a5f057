//! The keydir: every live key mapped to the locator of its newest value.
use vstd::prelude::*;
use vstd::slice::slice_to_vec;

verus! {

/// Where a value lives: segment id, offset of its first byte, its length, and
/// the timestamp of the record that wrote it.
#[derive(Clone, Copy, Debug, PartialEq, Eq, Structural)]
pub struct Entry {
    pub file_id: u64,
    pub value_pos: u64,
    pub value_size: usize,
    pub timestamp: u64,
}

impl Entry {
    pub fn new(file_id: u64, value_pos: u64, value_size: usize, timestamp: u64) -> (r: Entry)
        ensures
            r == (Entry { file_id, value_pos, value_size, timestamp }),
    {
        Entry { file_id, value_pos, value_size, timestamp }
    }
}

/// `e` replaces what `kd` holds for `key`: the key is absent, or its stored
/// timestamp is strictly older.
pub open spec fn newer(kd: Map<Seq<u8>, Entry>, key: Seq<u8>, e: Entry) -> bool {
    !kd.contains_key(key) || kd[key].timestamp < e.timestamp
}

/// Last-writer-wins update of one key; ties keep the incumbent.
pub open spec fn lww_update(kd: Map<Seq<u8>, Entry>, key: Seq<u8>, e: Entry) -> Map<Seq<u8>, Entry> {
    if newer(kd, key, e) {
        kd.insert(key, e)
    } else {
        kd
    }
}

/// Last-writer-wins merge of `b` into `a`, key by key.
pub open spec fn lww_merge(a: Map<Seq<u8>, Entry>, b: Map<Seq<u8>, Entry>) -> Map<Seq<u8>, Entry> {
    Map::new(
        |k: Seq<u8>| a.contains_key(k) || b.contains_key(k),
        |k: Seq<u8>|
            if b.contains_key(k) && newer(a, k, b[k]) {
                b[k]
            } else {
                a[k]
            },
    )
}

/// Lexicographic order on byte strings; a proper prefix comes first.
pub open spec fn lex_lt(a: Seq<u8>, b: Seq<u8>) -> bool
    decreases a.len(),
{
    if a.len() == 0 {
        b.len() > 0
    } else if b.len() == 0 {
        false
    } else if a[0] != b[0] {
        a[0] < b[0]
    } else {
        lex_lt(a.drop_first(), b.drop_first())
    }
}

proof fn lemma_lex_irreflexive(a: Seq<u8>)
    ensures
        !lex_lt(a, a),
    decreases a.len(),
{
    if a.len() > 0 {
        lemma_lex_irreflexive(a.drop_first());
    }
}

proof fn lemma_lex_transitive(a: Seq<u8>, b: Seq<u8>, c: Seq<u8>)
    requires
        lex_lt(a, b),
        lex_lt(b, c),
    ensures
        lex_lt(a, c),
    decreases a.len(),
{
    if a.len() > 0 && b.len() > 0 && c.len() > 0 && a[0] == b[0] && b[0] == c[0] {
        lemma_lex_transitive(a.drop_first(), b.drop_first(), c.drop_first());
    }
}

proof fn lemma_lex_total(a: Seq<u8>, b: Seq<u8>)
    requires
        a != b,
    ensures
        lex_lt(a, b) || lex_lt(b, a),
    decreases a.len(),
{
    if a.len() == 0 {
        assert(b.len() != 0) by {
            if b.len() == 0 {
                assert(a =~= b);
            }
        }
    } else if b.len() > 0 && a[0] == b[0] {
        assert(a.drop_first() != b.drop_first()) by {
            if a.drop_first() == b.drop_first() {
                assert(a =~= seq![a[0]] + a.drop_first());
                assert(b =~= seq![b[0]] + b.drop_first());
            }
        }
        lemma_lex_total(a.drop_first(), b.drop_first());
    }
}

proof fn lemma_lex_skip(a: Seq<u8>, b: Seq<u8>, i: int)
    requires
        0 <= i <= a.len(),
        i <= b.len(),
        forall|j: int| 0 <= j < i ==> a[j] == b[j],
    ensures
        lex_lt(a, b) == lex_lt(a.skip(i), b.skip(i)),
    decreases i,
{
    if i == 0 {
        assert(a.skip(0) =~= a);
        assert(b.skip(0) =~= b);
    } else {
        assert(a[0] == b[0]);
        lemma_lex_skip(a.drop_first(), b.drop_first(), i - 1);
        assert(a.drop_first().skip(i - 1) =~= a.skip(i));
        assert(b.drop_first().skip(i - 1) =~= b.skip(i));
    }
}

/// Compares two byte strings: negative, zero or positive as `a` comes before,
/// equals or comes after `b`.
pub fn compare_bytes(a: &[u8], b: &[u8]) -> (r: i8)
    ensures
        r < 0 <==> lex_lt(a@, b@),
        r == 0 <==> a@ == b@,
        r > 0 <==> lex_lt(b@, a@),
{
    let n = if a.len() < b.len() {
        a.len()
    } else {
        b.len()
    };
    let mut i: usize = 0;
    while i < n
        invariant
            n <= a@.len(),
            n <= b@.len(),
            n == a@.len() || n == b@.len(),
            i <= n,
            forall|j: int| 0 <= j < i ==> a@[j] == b@[j],
        decreases n - i,
    {
        if a[i] != b[i] {
            proof {
                lemma_lex_skip(a@, b@, i as int);
                lemma_lex_skip(b@, a@, i as int);
                assert(a@.skip(i as int)[0] == a@[i as int]);
                assert(b@.skip(i as int)[0] == b@[i as int]);
            }
            if a[i] < b[i] {
                return -1;
            } else {
                return 1;
            }
        }
        i = i + 1;
    }
    proof {
        lemma_lex_skip(a@, b@, i as int);
        lemma_lex_skip(b@, a@, i as int);
    }
    if a.len() < b.len() {
        assert(a@ != b@);
        -1
    } else if b.len() < a.len() {
        assert(a@ != b@);
        1
    } else {
        assert(a@ =~= b@);
        proof {
            lemma_lex_irreflexive(a@);
        }
        0
    }
}

/// The keydir, held as two parallel vectors, keys ascending.
pub struct Keydir {
    keys: Vec<Vec<u8>>,
    entries: Vec<Entry>,
    model: Ghost<Map<Seq<u8>, Entry>>,
}

impl View for Keydir {
    type V = Map<Seq<u8>, Entry>;

    closed spec fn view(&self) -> Map<Seq<u8>, Entry> {
        self.model@
    }
}

impl Keydir {
    /// The vectors agree with the map and hold each key once.
    pub closed spec fn wf(&self) -> bool {
        &&& self.keys@.len() == self.entries@.len()
        &&& forall|i: int|
            0 <= i < self.keys@.len() ==> #[trigger] self.model@.contains_key(self.keys@[i]@)
                && self.model@[self.keys@[i]@] == self.entries@[i]
        &&& forall|k: Seq<u8>|
            #[trigger] self.model@.contains_key(k) ==> exists|i: int|
                0 <= i < self.keys@.len() && self.keys@[i]@ == k
        &&& forall|i: int, j: int|
            0 <= i < self.keys@.len() && 0 <= j < self.keys@.len() && i != j
                ==> self.keys@[i]@ != self.keys@[j]@
        &&& forall|i: int, j: int|
            0 <= i < j < self.keys@.len() ==> lex_lt(self.keys@[i]@, self.keys@[j]@)
    }

    pub fn new() -> (r: Keydir)
        ensures
            r.wf(),
            r@ == Map::<Seq<u8>, Entry>::empty(),
    {
        Keydir { keys: Vec::new(), entries: Vec::new(), model: Ghost(Map::empty()) }
    }

    /// Number of keys.
    pub fn len(&self) -> (r: usize)
        requires
            self.wf(),
        ensures
            r == self@.dom().len(),
    {
        proof {
            self.lemma_dom_is_keys();
        }
        self.keys.len()
    }

    /// The largest timestamp held, `0` when empty.
    pub fn max_timestamp(&self) -> (r: u64)
        requires
            self.wf(),
        ensures
            forall|k: Seq<u8>| #[trigger] self@.contains_key(k) ==> self@[k].timestamp <= r,
            self@.dom().len() == 0 ==> r == 0,
            self@.dom().len() > 0 ==> exists|k: Seq<u8>|
                #[trigger] self@.contains_key(k) && self@[k].timestamp == r,
    {
        proof {
            self.lemma_dom_is_keys();
        }
        let mut m: u64 = 0;
        let mut i: usize = 0;
        while i < self.entries.len()
            invariant
                self.wf(),
                i <= self.entries@.len(),
                forall|j: int| 0 <= j < i ==> self.entries@[j].timestamp <= m,
                i == 0 ==> m == 0,
                i > 0 ==> exists|j: int| 0 <= j < i && self.entries@[j].timestamp == m,
            decreases self.entries@.len() - i,
        {
            if i == 0 || self.entries[i].timestamp > m {
                m = self.entries[i].timestamp;
            }
            i = i + 1;
        }
        proof {
            assert forall|k: Seq<u8>| #[trigger] self@.contains_key(k) implies self@[k].timestamp <= m by {
                let j = choose|j: int| 0 <= j < self.keys@.len() && self.keys@[j]@ == k;
                assert(self.model@[self.keys@[j]@] == self.entries@[j]);
            }
            if self@.dom().len() > 0 {
                let j = choose|j: int| 0 <= j < i && self.entries@[j].timestamp == m;
                assert(self.model@.contains_key(self.keys@[j]@));
            }
        }
        m
    }

    proof fn lemma_dom_is_keys(&self)
        requires
            self.wf(),
        ensures
            self@.dom().len() == self.keys@.len(),
    {
        let ks = self.keys@.map_values(|k: Vec<u8>| k@);
        assert forall|i: int, j: int| 0 <= i < ks.len() && 0 <= j < ks.len() && i != j implies ks[i]
            != ks[j] by {}
        assert(ks.no_duplicates());
        ks.unique_seq_to_set();
        assert(ks.to_set() =~= self@.dom()) by {
            assert forall|k: Seq<u8>| self@.dom().contains(k) implies ks.to_set().contains(k) by {
                let i = choose|i: int| 0 <= i < self.keys@.len() && self.keys@[i]@ == k;
                assert(ks[i] == k);
            }
            assert forall|k: Seq<u8>| ks.to_set().contains(k) implies self@.dom().contains(k) by {
                let i = choose|i: int| 0 <= i < ks.len() && ks[i] == k;
                assert(self.model@.contains_key(self.keys@[i]@));
            }
        }
    }

    /// Binary search: the position of `key`, or where it would go.
    fn find(&self, key: &[u8]) -> (r: Result<usize, usize>)
        requires
            self.wf(),
        ensures
            match r {
                Ok(i) => i < self.keys@.len() && self.keys@[i as int]@ == key@,
                Err(p) => {
                    &&& p <= self.keys@.len()
                    &&& !self@.contains_key(key@)
                    &&& forall|j: int| 0 <= j < p ==> lex_lt(#[trigger] self.keys@[j]@, key@)
                    &&& forall|j: int| p <= j < self.keys@.len() ==> lex_lt(key@, #[trigger] self.keys@[j]@)
                },
            },
    {
        let mut lo: usize = 0;
        let mut hi: usize = self.keys.len();
        while lo < hi
            invariant
                self.wf(),
                lo <= hi <= self.keys@.len(),
                forall|j: int| 0 <= j < lo ==> lex_lt(#[trigger] self.keys@[j]@, key@),
                forall|j: int| hi <= j < self.keys@.len() ==> lex_lt(key@, #[trigger] self.keys@[j]@),
            decreases hi - lo,
        {
            let mid = lo + (hi - lo) / 2;
            let c = compare_bytes(self.keys[mid].as_slice(), key);
            if c == 0 {
                return Ok(mid);
            }
            if c < 0 {
                proof {
                    assert forall|j: int| 0 <= j < mid + 1 implies lex_lt(#[trigger] self.keys@[j]@, key@) by {
                        if j < mid {
                            lemma_lex_transitive(self.keys@[j]@, self.keys@[mid as int]@, key@);
                        }
                    }
                }
                lo = mid + 1;
            } else {
                proof {
                    assert forall|j: int| mid <= j < self.keys@.len() implies lex_lt(key@, #[trigger] self.keys@[j]@) by {
                        if j > mid {
                            lemma_lex_transitive(key@, self.keys@[mid as int]@, self.keys@[j]@);
                        }
                    }
                }
                hi = mid;
            }
        }
        proof {
            lemma_lex_irreflexive(key@);
            if self@.contains_key(key@) {
                let i = choose|i: int| 0 <= i < self.keys@.len() && self.keys@[i]@ == key@;
                if i < lo {
                    assert(lex_lt(self.keys@[i]@, key@));
                } else {
                    assert(lex_lt(key@, self.keys@[i]@));
                }
            }
        }
        Err(lo)
    }

    /// Adds a key that is not held, at the position that keeps keys ascending.
    fn add_at(&mut self, p: usize, key: &[u8], e: Entry)
        requires
            old(self).wf(),
            p <= old(self).keys@.len(),
            !old(self)@.contains_key(key@),
            forall|j: int| 0 <= j < p ==> lex_lt(#[trigger] old(self).keys@[j]@, key@),
            forall|j: int| p <= j < old(self).keys@.len() ==> lex_lt(key@, #[trigger] old(self).keys@[j]@),
        ensures
            final(self).wf(),
            final(self)@ == old(self)@.insert(key@, e),
    {
        let ghost ok = self.keys@;
        let ghost oe = self.entries@;
        self.keys.insert(p, slice_to_vec(key));
        self.entries.insert(p, e);
        self.model = Ghost(self.model@.insert(key@, e));
        proof {
            let m = self.model@;
            let ks = self.keys@;
            let pi = p as int;
            assert(ks.len() == ok.len() + 1);
            assert forall|i: int| 0 <= i < ks.len() implies #[trigger] ks[i]@ == (if i < pi {
                ok[i]@
            } else if i == pi {
                key@
            } else {
                ok[i - 1]@
            }) by {}
            assert forall|i: int| 0 <= i < ks.len() implies #[trigger] m.contains_key(ks[i]@)
                && m[ks[i]@] == self.entries@[i] by {
                if i < pi {
                    assert(old(self).model@.contains_key(ok[i]@));
                    assert(ok[i]@ != key@);
                } else if i > pi {
                    assert(old(self).model@.contains_key(ok[i - 1]@));
                    assert(ok[i - 1]@ != key@);
                }
            }
            assert forall|k: Seq<u8>| #[trigger] m.contains_key(k) implies exists|i: int|
                0 <= i < ks.len() && ks[i]@ == k by {
                if k == key@ {
                    assert(ks[pi]@ == k);
                } else {
                    let i = choose|i: int| 0 <= i < ok.len() && ok[i]@ == k;
                    if i < pi {
                        assert(ks[i]@ == k);
                    } else {
                        assert(ks[i + 1]@ == k);
                    }
                }
            }
            assert forall|i: int, j: int| 0 <= i < j < ks.len() implies lex_lt(ks[i]@, ks[j]@) by {
                if j < pi {
                } else if j == pi {
                } else if i < pi {
                    lemma_lex_transitive(ok[i]@, key@, ok[j - 1]@);
                } else if i == pi {
                } else {
                }
            }
            assert forall|i: int, j: int|
                0 <= i < ks.len() && 0 <= j < ks.len() && i != j implies ks[i]@ != ks[j]@ by {
                lemma_lex_irreflexive(ks[i]@);
                if i < j {
                    assert(lex_lt(ks[i]@, ks[j]@));
                } else {
                    assert(lex_lt(ks[j]@, ks[i]@));
                }
            }
        }
    }

    /// The locator held for `key`.
    pub fn get(&self, key: &[u8]) -> (r: Option<Entry>)
        requires
            self.wf(),
        ensures
            r == (if self@.contains_key(key@) {
                Some(self@[key@])
            } else {
                None::<Entry>
            }),
    {
        match self.find(key) {
            Ok(i) => Some(self.entries[i]),
            Err(_) => None,
        }
    }

    /// Last-writer-wins: stores `e` when the key is absent or its stored
    /// timestamp is strictly older; otherwise leaves the keydir unchanged.
    pub fn update(&mut self, key: &[u8], e: Entry)
        requires
            old(self).wf(),
        ensures
            final(self).wf(),
            final(self)@ == lww_update(old(self)@, key@, e),
    {
        match self.find(key) {
            Ok(i) => {
                if self.entries[i].timestamp < e.timestamp {
                    self.entries.set(i, e);
                    self.model = Ghost(self.model@.insert(key@, e));
                }
            },
            Err(p) => self.add_at(p, key, e),
        }
    }

    /// Stores `e` for `key`, replacing whatever was held.
    pub fn insert(&mut self, key: &[u8], e: Entry)
        requires
            old(self).wf(),
        ensures
            final(self).wf(),
            final(self)@ == old(self)@.insert(key@, e),
    {
        match self.find(key) {
            Ok(i) => {
                self.entries.set(i, e);
                self.model = Ghost(self.model@.insert(key@, e));
                proof {
                    assert forall|j: int| 0 <= j < self.keys@.len() implies #[trigger]
                        self.model@.contains_key(self.keys@[j]@) && self.model@[self.keys@[j]@]
                        == self.entries@[j] by {
                        if j != i {
                            assert(old(self).model@.contains_key(old(self).keys@[j]@));
                        }
                    }
                    assert forall|k: Seq<u8>| #[trigger] self.model@.contains_key(k) implies exists|j: int|
                        0 <= j < self.keys@.len() && self.keys@[j]@ == k by {
                        if k == key@ {
                            assert(self.keys@[i as int]@ == k);
                        } else {
                            assert(old(self).model@.contains_key(k));
                        }
                    }
                }
            },
            Err(p) => self.add_at(p, key, e),
        }
    }

    /// Last-writer-wins merge of every entry of `other` into this keydir.
    pub fn merge(&mut self, other: &Keydir)
        requires
            old(self).wf(),
            other.wf(),
        ensures
            final(self).wf(),
            final(self)@ == lww_merge(old(self)@, other@),
    {
        let ghost start = self@;
        let mut i: usize = 0;
        while i < other.keys.len()
            invariant
                self.wf(),
                other.wf(),
                i <= other.keys@.len(),
                self@ == lww_merge(start, other@.restrict(other.prefix_keys(i as int))),
            decreases other.keys@.len() - i,
        {
            let ghost before = self@;
            self.update(other.keys[i].as_slice(), other.entries[i]);
            proof {
                let k = other.keys@[i as int]@;
                let s0 = other.prefix_keys(i as int);
                let s1 = other.prefix_keys(i + 1);
                assert(s1 =~= s0.insert(k)) by {
                    assert forall|x: Seq<u8>| s1.contains(x) implies s0.insert(k).contains(x) by {
                        let j = choose|j: int| 0 <= j < i + 1 && other.keys@[j]@ == x;
                        if j < i {
                            assert(s0.contains(x));
                        }
                    }
                    assert forall|x: Seq<u8>| s0.insert(k).contains(x) implies s1.contains(x) by {
                        if x == k {
                            assert(other.keys@[i as int]@ == x);
                        } else {
                            let j = choose|j: int| 0 <= j < i && other.keys@[j]@ == x;
                            assert(0 <= j < i + 1 && other.keys@[j]@ == x);
                        }
                    }
                }
                assert(!s0.contains(k));
                assert(self@ =~= lww_merge(start, other@.restrict(s1)));
            }
            i = i + 1;
        }
        proof {
            assert(other@.restrict(other.prefix_keys(i as int)) =~= other@) by {
                assert forall|x: Seq<u8>| other@.contains_key(x) implies other.prefix_keys(
                    i as int,
                ).contains(x) by {
                    let j = choose|j: int| 0 <= j < other.keys@.len() && other.keys@[j]@ == x;
                    assert(0 <= j < i && other.keys@[j]@ == x);
                }
            }
        }
    }

    /// The keys held at the first `i` positions.
    pub closed spec fn prefix_keys(&self, i: int) -> Set<Seq<u8>> {
        Set::new(|x: Seq<u8>| exists|j: int| 0 <= j < i && self.keys@[j]@ == x)
    }
}

} // verus!
