//! The tile cache: rendered tile images keyed by their tile key.
use vstd::prelude::*;
use crate::palette::Rgba;
use crate::square::Square;

verus! {

/// Map described by a sequence of entries; a later entry for a key wins.
pub open spec fn map_of(s: Seq<(Square, Vec<Rgba>)>) -> Map<Square, Seq<Rgba>>
    decreases s.len(),
{
    if s.len() == 0 {
        Map::empty()
    } else {
        map_of(s.drop_last()).insert(s.last().0, s.last().1@)
    }
}

/// No key occurs twice among the entries.
pub open spec fn keys_unique(s: Seq<(Square, Vec<Rgba>)>) -> bool {
    forall|i: int, j: int| 0 <= i < s.len() && 0 <= j < s.len() && i != j ==> s[i].0 != s[j].0
}

/// A key is in the map exactly when some entry carries it.
proof fn lemma_map_of_dom(s: Seq<(Square, Vec<Rgba>)>, k: Square)
    ensures
        map_of(s).contains_key(k) <==> exists|i: int| 0 <= i < s.len() && s[i].0 == k,
    decreases s.len(),
{
    if s.len() > 0 {
        lemma_map_of_dom(s.drop_last(), k);
        if map_of(s.drop_last()).contains_key(k) {
            let i = choose|i: int| 0 <= i < s.drop_last().len() && s.drop_last()[i].0 == k;
            assert(s[i].0 == k);
        }
        if exists|i: int| 0 <= i < s.len() && s[i].0 == k {
            let i = choose|i: int| 0 <= i < s.len() && s[i].0 == k;
            if i < s.len() - 1 {
                assert(s.drop_last()[i].0 == k);
            }
        }
    }
}

/// With unique keys, each entry's image is what the map holds for its key.
proof fn lemma_map_of_value(s: Seq<(Square, Vec<Rgba>)>, i: int)
    requires
        keys_unique(s),
        0 <= i < s.len(),
    ensures
        map_of(s).contains_key(s[i].0),
        map_of(s)[s[i].0] == s[i].1@,
    decreases s.len(),
{
    if i < s.len() - 1 {
        assert(keys_unique(s.drop_last()));
        lemma_map_of_value(s.drop_last(), i);
        assert(s.drop_last()[i] == s[i]);
    }
}

/// With unique keys, the map has one key per entry.
proof fn lemma_map_of_len(s: Seq<(Square, Vec<Rgba>)>)
    requires
        keys_unique(s),
    ensures
        map_of(s).dom().finite(),
        map_of(s).dom().len() == s.len(),
    decreases s.len(),
{
    if s.len() > 0 {
        let t = s.drop_last();
        assert(keys_unique(t));
        lemma_map_of_len(t);
        lemma_map_of_dom(t, s.last().0);
        if map_of(t).contains_key(s.last().0) {
            let i = choose|i: int| 0 <= i < t.len() && t[i].0 == s.last().0;
            assert(s[i].0 == s[s.len() - 1].0);
        }
    }
}

/// Rendered tiles keyed by `Square`; at most one image per key.
///
/// The entries are a `Vec` with distinct keys rather than a `HashMap`:
/// vstd's model of `HashMap` applies only to keys of built-in integer types
/// (`obeys_key_model`), so with a struct key no lookup or insertion could be
/// proved. Lookups are linear; a view needs a few hundred tiles.
pub struct TileCache {
    entries: Vec<(Square, Vec<Rgba>)>,
}

impl View for TileCache {
    type V = Map<Square, Seq<Rgba>>;

    closed spec fn view(&self) -> Map<Square, Seq<Rgba>> {
        map_of(self.entries@)
    }
}

impl TileCache {
    /// The entries carry distinct keys.
    pub closed spec fn wf(&self) -> bool {
        keys_unique(self.entries@)
    }

    /// A well-formed cache holds finitely many tiles.
    pub proof fn lemma_dom_finite(&self)
        requires
            self.wf(),
        ensures
            self@.dom().finite(),
    {
        lemma_map_of_len(self.entries@);
    }

    /// An empty cache.
    pub fn new() -> (r: Self)
        ensures
            r.wf(),
            r@ == Map::<Square, Seq<Rgba>>::empty(),
    {
        TileCache { entries: Vec::new() }
    }

    /// Position of the entry for `key`, if any.
    fn find(&self, key: &Square) -> (r: Option<usize>)
        requires
            self.wf(),
        ensures
            match r {
                Some(i) => i < self.entries@.len() && self.entries@[i as int].0 == *key,
                None => !self@.contains_key(*key),
            },
    {
        let mut i: usize = 0;
        while i < self.entries.len()
            invariant
                i <= self.entries@.len(),
                forall|t: int| 0 <= t < i ==> self.entries@[t].0 != *key,
            decreases self.entries@.len() - i,
        {
            if self.entries[i].0 == *key {
                return Some(i);
            }
            i = i + 1;
        }
        proof {
            lemma_map_of_dom(self.entries@, *key);
        }
        None
    }

    /// Whether an image is cached under `key`.
    pub fn contains_key(&self, key: &Square) -> (r: bool)
        requires
            self.wf(),
        ensures
            r == self@.contains_key(*key),
    {
        match self.find(key) {
            Some(i) => {
                proof {
                    lemma_map_of_dom(self.entries@, *key);
                }
                true
            },
            None => false,
        }
    }

    /// The image cached under `key`, if any.
    pub fn get(&self, key: &Square) -> (r: Option<&Vec<Rgba>>)
        requires
            self.wf(),
        ensures
            match r {
                Some(img) => self@.contains_key(*key) && self@[*key] == img@,
                None => !self@.contains_key(*key),
            },
    {
        match self.find(key) {
            Some(i) => {
                proof {
                    lemma_map_of_value(self.entries@, i as int);
                }
                Some(&self.entries[i].1)
            },
            None => None,
        }
    }

    /// Number of cached tiles.
    pub fn len(&self) -> (r: usize)
        requires
            self.wf(),
        ensures
            r == self@.dom().len(),
    {
        proof {
            lemma_map_of_len(self.entries@);
        }
        self.entries.len()
    }

    /// The keys of all cached tiles, each once.
    pub fn keys(&self) -> (r: Vec<Square>)
        requires
            self.wf(),
        ensures
            r@.no_duplicates(),
            forall|k: Square| r@.contains(k) <==> self@.contains_key(k),
    {
        let mut r: Vec<Square> = Vec::new();
        let mut i: usize = 0;
        while i < self.entries.len()
            invariant
                self.wf(),
                i <= self.entries@.len(),
                r@.len() == i,
                forall|t: int| 0 <= t < i ==> r@[t] == self.entries@[t].0,
            decreases self.entries@.len() - i,
        {
            r.push(self.entries[i].0);
            i = i + 1;
        }
        assert forall|k: Square| r@.contains(k) <==> self@.contains_key(k) by {
            lemma_map_of_dom(self.entries@, k);
            if self@.contains_key(k) {
                let t = choose|t: int| 0 <= t < self.entries@.len() && self.entries@[t].0 == k;
                assert(r@[t] == k);
            }
        }
        r
    }

    /// Stores `img` under `key`, replacing any image cached there.
    pub fn insert(&mut self, key: Square, img: Vec<Rgba>)
        requires
            old(self).wf(),
        ensures
            final(self).wf(),
            final(self)@ == old(self)@.insert(key, img@),
    {
        let ghost s0 = self.entries@;
        match self.find(&key) {
            Some(i) => {
                let ghost v = img@;
                self.entries.set(i, (key, img));
                proof {
                    let s1 = self.entries@;
                    assert(keys_unique(s1)) by {
                        assert forall|a: int, b: int|
                            0 <= a < s1.len() && 0 <= b < s1.len() && a != b implies s1[a].0
                            != s1[b].0 by {
                            assert(s1[a].0 == s0[a].0);
                            assert(s1[b].0 == s0[b].0);
                        }
                    }
                    assert forall|k: Square| #[trigger]
                        map_of(s1).contains_key(k) == map_of(s0).insert(key, v).contains_key(
                            k,
                        ) by {
                        lemma_map_of_dom(s1, k);
                        lemma_map_of_dom(s0, k);
                        if exists|t: int| 0 <= t < s0.len() && s0[t].0 == k {
                            let t = choose|t: int| 0 <= t < s0.len() && s0[t].0 == k;
                            assert(s1[t].0 == k);
                        }
                        if exists|t: int| 0 <= t < s1.len() && s1[t].0 == k {
                            let t = choose|t: int| 0 <= t < s1.len() && s1[t].0 == k;
                            assert(s0[t].0 == k);
                        }
                    }
                    assert forall|k: Square| #[trigger]
                        map_of(s1).contains_key(k) implies map_of(s1)[k] == map_of(s0).insert(
                            key,
                            v,
                        )[k] by {
                        lemma_map_of_dom(s1, k);
                        let t = choose|t: int| 0 <= t < s1.len() && s1[t].0 == k;
                        lemma_map_of_value(s1, t);
                        if t != i {
                            lemma_map_of_value(s0, t);
                        }
                    }
                    assert(map_of(s1) =~= map_of(s0).insert(key, v));
                }
            },
            None => {
                self.entries.push((key, img));
                proof {
                    let s1 = self.entries@;
                    assert(s1.drop_last() =~= s0);
                    assert forall|t: int| 0 <= t < s0.len() implies s0[t].0 != key by {
                        lemma_map_of_dom(s0, key);
                    }
                }
            },
        }
    }

    /// Keeps only the tiles of the given zoom and iteration budget.
    pub fn retain_level(&mut self, zoom: u64, max_iter: u32)
        requires
            old(self).wf(),
        ensures
            final(self).wf(),
            final(self)@ == old(self)@.restrict(
                Set::new(|k: Square| k.zoom == zoom && k.max_iter == max_iter),
            ),
    {
        let ghost s0 = self.entries@;
        let mut kept: Vec<(Square, Vec<Rgba>)> = Vec::new();
        while self.entries.len() > 0
            invariant
                keys_unique(s0),
                self.entries@.len() <= s0.len(),
                self.entries@ == s0.subrange(0, self.entries@.len() as int),
                keys_unique(kept@),
                forall|t: int|
                    0 <= t < kept@.len() ==> exists|j: int|
                        self.entries@.len() <= j < s0.len() && s0[j] == #[trigger] kept@[t],
                forall|t: int|
                    0 <= t < kept@.len() ==> (#[trigger] kept@[t]).0.zoom == zoom
                        && kept@[t].0.max_iter == max_iter,
                forall|j: int|
                    self.entries@.len() <= j < s0.len() && (#[trigger] s0[j]).0.zoom == zoom
                        && s0[j].0.max_iter == max_iter ==> exists|t: int|
                        0 <= t < kept@.len() && kept@[t] == s0[j],
            decreases self.entries@.len(),
        {
            let ghost m = self.entries@.len() - 1;
            let e = self.entries.pop().unwrap();
            proof {
                assert(s0[m] == e);
            }
            if e.0.zoom == zoom && e.0.max_iter == max_iter {
                let ghost k0 = kept@;
                kept.push(e);
                proof {
                    assert(kept@[k0.len() as int] == s0[m]);
                    assert forall|a: int, b: int|
                        0 <= a < kept@.len() && 0 <= b < kept@.len() && a != b implies kept@[a].0
                        != kept@[b].0 by {
                        if a == k0.len() {
                            assert(kept@[b] == k0[b]);
                            let j = choose|j: int| m < j < s0.len() && s0[j] == k0[b];
                        } else if b == k0.len() {
                            assert(kept@[a] == k0[a]);
                            let j = choose|j: int| m < j < s0.len() && s0[j] == k0[a];
                        } else {
                            assert(kept@[a] == k0[a] && kept@[b] == k0[b]);
                        }
                    }
                    assert forall|t: int| 0 <= t < kept@.len() implies exists|j: int|
                        self.entries@.len() <= j < s0.len() && s0[j] == #[trigger] kept@[t] by {
                        if t < k0.len() {
                            assert(kept@[t] == k0[t]);
                            let j = choose|j: int| m < j < s0.len() && s0[j] == k0[t];
                        } else {
                            assert(s0[m] == kept@[t]);
                        }
                    }
                    assert forall|j: int|
                        self.entries@.len() <= j < s0.len() && (#[trigger] s0[j]).0.zoom == zoom
                            && s0[j].0.max_iter == max_iter implies exists|t: int|
                        0 <= t < kept@.len() && kept@[t] == s0[j] by {
                        if j == m {
                            assert(kept@[k0.len() as int] == s0[j]);
                        } else {
                            let t = choose|t: int| 0 <= t < k0.len() && k0[t] == s0[j];
                            assert(kept@[t] == k0[t]);
                        }
                    }
                }
            }
        }
        proof {
            let ks = kept@;
            let keep = Set::new(|k: Square| k.zoom == zoom && k.max_iter == max_iter);
            assert forall|k: Square| #[trigger]
                map_of(ks).contains_key(k) == map_of(s0).restrict(keep).contains_key(k) by {
                lemma_map_of_dom(ks, k);
                lemma_map_of_dom(s0, k);
                if exists|t: int| 0 <= t < ks.len() && ks[t].0 == k {
                    let t = choose|t: int| 0 <= t < ks.len() && ks[t].0 == k;
                    let j = choose|j: int| 0 <= j < s0.len() && s0[j] == ks[t];
                    assert(s0[j].0 == k);
                }
                if exists|j: int| 0 <= j < s0.len() && s0[j].0 == k {
                    if keep.contains(k) {
                        let j = choose|j: int| 0 <= j < s0.len() && s0[j].0 == k;
                        let t = choose|t: int| 0 <= t < ks.len() && ks[t] == s0[j];
                        assert(ks[t].0 == k);
                    }
                }
            }
            assert forall|k: Square| #[trigger]
                map_of(ks).contains_key(k) implies map_of(ks)[k] == map_of(s0).restrict(
                    keep,
                )[k] by {
                lemma_map_of_dom(ks, k);
                let t = choose|t: int| 0 <= t < ks.len() && ks[t].0 == k;
                let j = choose|j: int| 0 <= j < s0.len() && s0[j] == ks[t];
                lemma_map_of_value(ks, t);
                lemma_map_of_value(s0, j);
            }
            assert(map_of(ks) =~= map_of(s0).restrict(keep));
        }
        self.entries = kept;
    }
}

} // verus!
