use vstd::prelude::*;

verus! {

/// A sequence of key/value pairs read as a finite map; a later pair with the
/// same key overrides an earlier one.
pub open spec fn map_of<V>(s: Seq<(Seq<char>, V)>) -> Map<Seq<char>, V>
    decreases s.len(),
{
    if s.len() == 0 {
        Map::empty()
    } else {
        map_of(s.drop_last()).insert(s.last().0, s.last().1)
    }
}

/// No two pairs of the sequence share a key.
pub open spec fn unique_keys<V>(s: Seq<(Seq<char>, V)>) -> bool {
    forall|i: int, j: int| 0 <= i < j < s.len() ==> s[i].0 != s[j].0
}

/// A key that no pair carries is not in the map.
pub proof fn lemma_map_of_absent<V>(s: Seq<(Seq<char>, V)>, k: Seq<char>)
    requires
        forall|i: int| 0 <= i < s.len() ==> (#[trigger] s[i]).0 != k,
    ensures
        !map_of(s).contains_key(k),
    decreases s.len(),
{
    if s.len() > 0 {
        assert(forall|i: int|
            0 <= i < s.drop_last().len() ==> (#[trigger] s.drop_last()[i]).0 != k);
        lemma_map_of_absent(s.drop_last(), k);
        assert(s[s.len() - 1].0 != k);
    }
}

/// A key in the map is carried by some pair.
pub proof fn lemma_map_of_key_index<V>(s: Seq<(Seq<char>, V)>, k: Seq<char>)
    requires
        map_of(s).contains_key(k),
    ensures
        exists|i: int| 0 <= i < s.len() && (#[trigger] s[i]).0 == k,
    decreases s.len(),
{
    if k == s.last().0 {
        assert(s[s.len() - 1].0 == k);
    } else {
        lemma_map_of_key_index(s.drop_last(), k);
        let i = choose|i: int|
            0 <= i < s.drop_last().len() && (#[trigger] s.drop_last()[i]).0 == k;
        assert(s.drop_last()[i] == s[i]);
        assert(s[i].0 == k);
    }
}

/// Under unique keys, the map's value at a pair's key is that pair's value.
pub proof fn lemma_map_of_index<V>(s: Seq<(Seq<char>, V)>, i: int)
    requires
        unique_keys(s),
        0 <= i < s.len(),
    ensures
        map_of(s).contains_key(s[i].0),
        map_of(s)[s[i].0] == s[i].1,
    decreases s.len(),
{
    if i == s.len() - 1 {
    } else {
        assert(s[i].0 != s[s.len() - 1].0);
        assert(s.drop_last()[i] == s[i]);
        lemma_map_of_index(s.drop_last(), i);
    }
}

/// Appending a pair inserts it into the map.
pub proof fn lemma_map_of_push<V>(s: Seq<(Seq<char>, V)>, k: Seq<char>, v: V)
    ensures
        map_of(s.push((k, v))) == map_of(s).insert(k, v),
{
    assert(s.push((k, v)).drop_last() =~= s);
    assert(s.push((k, v)).last() == (k, v));
}

/// Replacing the pair that carries a key updates the map at that key.
pub proof fn lemma_map_of_update<V>(s: Seq<(Seq<char>, V)>, j: int, k: Seq<char>, v: V)
    requires
        unique_keys(s),
        0 <= j < s.len(),
        s[j].0 == k,
    ensures
        map_of(s.update(j, (k, v))) == map_of(s).insert(k, v),
    decreases s.len(),
{
    let t = s.update(j, (k, v));
    if j == s.len() - 1 {
        assert(t.drop_last() =~= s.drop_last());
        assert(map_of(s).insert(k, v) =~= map_of(s.drop_last()).insert(k, v));
    } else {
        assert(t.drop_last() =~= s.drop_last().update(j, (k, v)));
        assert(t.last() == s.last());
        lemma_map_of_update(s.drop_last(), j, k, v);
        assert(s[j].0 != s[s.len() - 1].0);
        assert(map_of(s.drop_last()).insert(k, v).insert(s.last().0, s.last().1) =~= map_of(
            s.drop_last(),
        ).insert(s.last().0, s.last().1).insert(k, v));
    }
}

/// Removing the pair that carries a key removes that key from the map.
pub proof fn lemma_map_of_remove<V>(s: Seq<(Seq<char>, V)>, j: int)
    requires
        unique_keys(s),
        0 <= j < s.len(),
    ensures
        map_of(s.remove(j)) == map_of(s).remove(s[j].0),
    decreases s.len(),
{
    let k = s[j].0;
    let t = s.remove(j);
    if j == s.len() - 1 {
        assert(t =~= s.drop_last());
        assert(forall|i: int|
            0 <= i < s.drop_last().len() ==> (#[trigger] s.drop_last()[i]).0 != k);
        lemma_map_of_absent(s.drop_last(), k);
        assert(map_of(s.drop_last()).insert(k, s[j].1).remove(k) =~= map_of(s.drop_last()));
    } else {
        assert(t.drop_last() =~= s.drop_last().remove(j));
        assert(t.last() == s.last());
        lemma_map_of_remove(s.drop_last(), j);
        assert(s[j].0 != s[s.len() - 1].0);
        assert(map_of(s.drop_last()).remove(k).insert(s.last().0, s.last().1) =~= map_of(
            s.drop_last(),
        ).insert(s.last().0, s.last().1).remove(k));
    }
}

/// The views of a sequence of owned string pairs.
pub open spec fn kv_views(s: Seq<(String, String)>) -> Seq<(Seq<char>, Seq<char>)> {
    s.map_values(|p: (String, String)| (p.0@, p.1@))
}

/// A map from strings to strings, stored as entries with unique keys.
pub struct StrMap {
    pub(crate) entries: Vec<(String, String)>,
}

impl View for StrMap {
    type V = Map<Seq<char>, Seq<char>>;

    closed spec fn view(&self) -> Map<Seq<char>, Seq<char>> {
        map_of(kv_views(self.entries@))
    }
}

impl StrMap {
    /// No two entries share a key.
    pub closed spec fn wf(self) -> bool {
        unique_keys(kv_views(self.entries@))
    }

    /// The empty map.
    pub fn new() -> (r: StrMap)
        ensures
            r.wf(),
            r@ == Map::<Seq<char>, Seq<char>>::empty(),
    {
        StrMap { entries: Vec::new() }
    }

    /// Records a value under a key, replacing any value the key had.
    pub fn insert(&mut self, trigger: String, body: String)
        requires
            old(self).wf(),
        ensures
            final(self).wf(),
            final(self)@ == old(self)@.insert(trigger@, body@),
    {
        let ghost s0 = kv_views(old(self).entries@);
        let mut i: usize = 0;
        while i < self.entries.len()
            invariant
                old(self).wf(),
                s0 == kv_views(old(self).entries@),
                self == old(self),
                i <= self.entries.len(),
                forall|j: int| 0 <= j < i ==> (#[trigger] s0[j]).0 != trigger@,
            decreases self.entries.len() - i,
        {
            proof {
                assert(s0[i as int].0 == self.entries@[i as int].0@);
            }
            if self.entries[i].0 == trigger {
                self.entries[i] = (trigger, body);
                proof {
                    let t = kv_views(self.entries@);
                    assert forall|j: int| 0 <= j < t.len() implies t[j] == s0.update(
                        i as int,
                        (trigger@, body@),
                    )[j] by {
                        assert(t[j] == (self.entries@[j].0@, self.entries@[j].1@));
                        if j != i {
                            assert(s0[j] == (old(self).entries@[j].0@, old(self).entries@[j].1@));
                        }
                    }
                    assert(t =~= s0.update(i as int, (trigger@, body@)));
                    lemma_map_of_update(s0, i as int, trigger@, body@);
                    assert forall|a: int, b: int| 0 <= a < b < t.len() implies t[a].0 != t[b].0 by {
                        assert(t[a].0 == s0[a].0 && t[b].0 == s0[b].0);
                    }
                }
                return ;
            }
            i += 1;
        }
        self.entries.push((trigger, body));
        proof {
            let t = kv_views(self.entries@);
            assert forall|j: int| 0 <= j < t.len() implies t[j] == s0.push((trigger@, body@))[j] by {
                assert(t[j] == (self.entries@[j].0@, self.entries@[j].1@));
                if j < s0.len() {
                    assert(s0[j] == (old(self).entries@[j].0@, old(self).entries@[j].1@));
                }
            }
            assert(t =~= s0.push((trigger@, body@)));
            lemma_map_of_push(s0, trigger@, body@);
            assert forall|a: int, b: int| 0 <= a < b < t.len() implies t[a].0 != t[b].0 by {
                if b < s0.len() {
                    assert(t[a].0 == s0[a].0 && t[b].0 == s0[b].0);
                } else {
                    assert(t[a].0 == s0[a].0 && t[b].0 == trigger@);
                }
            }
        }
    }

    /// The value recorded under a key, if the key has one.
    pub fn get(&self, trigger: &String) -> (r: Option<&String>)
        requires
            self.wf(),
        ensures
            match r {
                Some(body) => self@.contains_key(trigger@) && body@ == self@[trigger@],
                None => !self@.contains_key(trigger@),
            },
    {
        let mut i: usize = 0;
        while i < self.entries.len()
            invariant
                self.wf(),
                i <= self.entries.len(),
                forall|j: int| 0 <= j < i ==> (#[trigger] kv_views(self.entries@)[j]).0 != trigger@,
            decreases self.entries.len() - i,
        {
            assert(kv_views(self.entries@)[i as int].0 == self.entries@[i as int].0@);
            if self.entries[i].0 == *trigger {
                proof {
                    lemma_map_of_index(kv_views(self.entries@), i as int);
                }
                return Some(&self.entries[i].1);
            }
            i += 1;
        }
        proof {
            lemma_map_of_absent(kv_views(self.entries@), trigger@);
        }
        None
    }

    /// Removes a key's entry; nothing changes where the key has none.
    pub fn remove(&mut self, trigger: &String)
        requires
            old(self).wf(),
        ensures
            final(self).wf(),
            final(self)@ == old(self)@.remove(trigger@),
    {
        let ghost s0 = kv_views(old(self).entries@);
        let mut i: usize = 0;
        while i < self.entries.len()
            invariant
                old(self).wf(),
                s0 == kv_views(old(self).entries@),
                self == old(self),
                i <= self.entries.len(),
                forall|j: int| 0 <= j < i ==> (#[trigger] s0[j]).0 != trigger@,
            decreases self.entries.len() - i,
        {
            proof {
                assert(s0[i as int].0 == self.entries@[i as int].0@);
            }
            if self.entries[i].0 == *trigger {
                self.entries.remove(i);
                proof {
                    let t = kv_views(self.entries@);
                    assert forall|j: int| 0 <= j < t.len() implies t[j] == s0.remove(
                        i as int,
                    )[j] by {
                        assert(t[j] == (self.entries@[j].0@, self.entries@[j].1@));
                        if j < i {
                            assert(s0[j] == (old(self).entries@[j].0@, old(self).entries@[j].1@));
                        } else {
                            assert(s0[j + 1] == (
                                old(self).entries@[j + 1].0@,
                                old(self).entries@[j + 1].1@,
                            ));
                        }
                    }
                    assert(t =~= s0.remove(i as int));
                    lemma_map_of_remove(s0, i as int);
                    assert forall|a: int, b: int| 0 <= a < b < t.len() implies t[a].0 != t[b].0 by {
                        let a0: int = if a < i { a } else { a + 1 };
                        let b0: int = if b < i { b } else { b + 1 };
                        assert(t[a].0 == s0[a0].0 && t[b].0 == s0[b0].0);
                    }
                }
                return ;
            }
            i += 1;
        }
        proof {
            lemma_map_of_absent(s0, trigger@);
            assert(map_of(s0).remove(trigger@) =~= map_of(s0));
        }
    }

    /// The entries as a list of (key, value) pairs, one per key.
    pub fn to_pairs(&self) -> (r: Vec<(String, String)>)
        requires
            self.wf(),
        ensures
            unique_keys(kv_views(r@)),
            map_of(kv_views(r@)) == self@,
    {
        let mut r: Vec<(String, String)> = Vec::new();
        let mut i: usize = 0;
        while i < self.entries.len()
            invariant
                self.wf(),
                i <= self.entries.len(),
                r@.len() == i,
                forall|j: int|
                    0 <= j < i ==> (#[trigger] r@[j]).0@ == self.entries@[j].0@ && r@[j].1@
                        == self.entries@[j].1@,
            decreases self.entries.len() - i,
        {
            r.push((self.entries[i].0.clone(), self.entries[i].1.clone()));
            i += 1;
        }
        proof {
            assert forall|j: int| 0 <= j < r@.len() implies kv_views(r@)[j] == kv_views(
                self.entries@,
            )[j] by {
                assert(kv_views(r@)[j] == (r@[j].0@, r@[j].1@));
            }
            assert(kv_views(r@) =~= kv_views(self.entries@));
        }
        r
    }
}

impl Clone for StrMap {
    /// An equal map, entry for entry.
    fn clone(&self) -> (r: Self)
        ensures
            r@ == self@,
            r.wf() == self.wf(),
    {
        let mut entries: Vec<(String, String)> = Vec::new();
        let mut i: usize = 0;
        while i < self.entries.len()
            invariant
                i <= self.entries.len(),
                entries@.len() == i,
                forall|j: int|
                    0 <= j < i ==> (#[trigger] entries@[j]).0@ == self.entries@[j].0@
                        && entries@[j].1@ == self.entries@[j].1@,
            decreases self.entries.len() - i,
        {
            entries.push((self.entries[i].0.clone(), self.entries[i].1.clone()));
            i += 1;
        }
        proof {
            assert forall|j: int| 0 <= j < entries@.len() implies kv_views(entries@)[j] == kv_views(
                self.entries@,
            )[j] by {
                assert(kv_views(entries@)[j] == (entries@[j].0@, entries@[j].1@));
            }
            assert(kv_views(entries@) =~= kv_views(self.entries@));
        }
        StrMap { entries }
    }
}

/// A set of snippets for one language: triggers mapped to replacement bodies.
pub type SnippetSet = StrMap;

/// The views of a sequence of language/snippet-set pairs.
pub open spec fn lang_views(s: Seq<(String, SnippetSet)>) -> Seq<
    (Seq<char>, Map<Seq<char>, Seq<char>>),
> {
    s.map_values(|p: (String, SnippetSet)| (p.0@, p.1@))
}

/// A table of snippets: language identifiers mapped to their snippet sets.
pub struct LangSnippetTable {
    pub(crate) entries: Vec<(String, SnippetSet)>,
}

impl View for LangSnippetTable {
    type V = Map<Seq<char>, Map<Seq<char>, Seq<char>>>;

    closed spec fn view(&self) -> Map<Seq<char>, Map<Seq<char>, Seq<char>>> {
        map_of(lang_views(self.entries@))
    }
}

impl LangSnippetTable {
    /// No two entries share a language, and every snippet set is well formed.
    pub closed spec fn wf(self) -> bool {
        &&& unique_keys(lang_views(self.entries@))
        &&& forall|i: int| 0 <= i < self.entries@.len() ==> (#[trigger] self.entries@[i]).1.wf()
    }

    /// The empty table.
    pub fn new() -> (r: LangSnippetTable)
        ensures
            r.wf(),
            r@ == Map::<Seq<char>, Map<Seq<char>, Seq<char>>>::empty(),
    {
        LangSnippetTable { entries: Vec::new() }
    }

    /// Records a snippet set under a language, replacing any set the language had.
    pub fn insert(&mut self, lang: String, set: SnippetSet)
        requires
            old(self).wf(),
            set.wf(),
        ensures
            final(self).wf(),
            final(self)@ == old(self)@.insert(lang@, set@),
    {
        let ghost s0 = lang_views(old(self).entries@);
        let mut i: usize = 0;
        while i < self.entries.len()
            invariant
                old(self).wf(),
                set.wf(),
                s0 == lang_views(old(self).entries@),
                self == old(self),
                i <= self.entries.len(),
                forall|j: int| 0 <= j < i ==> (#[trigger] s0[j]).0 != lang@,
            decreases self.entries.len() - i,
        {
            proof {
                assert(s0[i as int].0 == self.entries@[i as int].0@);
            }
            if self.entries[i].0 == lang {
                let ghost v = set@;
                self.entries[i] = (lang, set);
                proof {
                    let t = lang_views(self.entries@);
                    assert forall|j: int| 0 <= j < t.len() implies t[j] == s0.update(
                        i as int,
                        (lang@, v),
                    )[j] by {
                        assert(t[j] == (self.entries@[j].0@, self.entries@[j].1@));
                        if j != i {
                            assert(s0[j] == (old(self).entries@[j].0@, old(self).entries@[j].1@));
                        }
                    }
                    assert(t =~= s0.update(i as int, (lang@, v)));
                    lemma_map_of_update(s0, i as int, lang@, v);
                    assert forall|a: int, b: int| 0 <= a < b < t.len() implies t[a].0 != t[b].0 by {
                        assert(t[a].0 == s0[a].0 && t[b].0 == s0[b].0);
                    }
                    assert forall|j: int| 0 <= j < self.entries@.len() implies (
                    #[trigger] self.entries@[j]).1.wf() by {
                        if j != i {
                            assert(self.entries@[j] == old(self).entries@[j]);
                        }
                    }
                }
                return ;
            }
            i += 1;
        }
        let ghost v = set@;
        self.entries.push((lang, set));
        proof {
            let t = lang_views(self.entries@);
            assert forall|j: int| 0 <= j < t.len() implies t[j] == s0.push((lang@, v))[j] by {
                assert(t[j] == (self.entries@[j].0@, self.entries@[j].1@));
                if j < s0.len() {
                    assert(s0[j] == (old(self).entries@[j].0@, old(self).entries@[j].1@));
                }
            }
            assert(t =~= s0.push((lang@, v)));
            lemma_map_of_push(s0, lang@, v);
            assert forall|a: int, b: int| 0 <= a < b < t.len() implies t[a].0 != t[b].0 by {
                if b < s0.len() {
                    assert(t[a].0 == s0[a].0 && t[b].0 == s0[b].0);
                } else {
                    assert(t[a].0 == s0[a].0 && t[b].0 == lang@);
                }
            }
            assert forall|j: int| 0 <= j < self.entries@.len() implies (
            #[trigger] self.entries@[j]).1.wf() by {
                if j < old(self).entries@.len() {
                    assert(self.entries@[j] == old(self).entries@[j]);
                }
            }
        }
    }

    /// The snippet set recorded under a language, if the language has one.
    pub fn get(&self, lang: &String) -> (r: Option<&SnippetSet>)
        requires
            self.wf(),
        ensures
            match r {
                Some(set) => self@.contains_key(lang@) && set@ == self@[lang@] && set.wf(),
                None => !self@.contains_key(lang@),
            },
    {
        let mut i: usize = 0;
        while i < self.entries.len()
            invariant
                self.wf(),
                i <= self.entries.len(),
                forall|j: int| 0 <= j < i ==> (#[trigger] lang_views(self.entries@)[j]).0 != lang@,
            decreases self.entries.len() - i,
        {
            proof {
                assert(lang_views(self.entries@)[i as int].0 == self.entries@[i as int].0@);
            }
            if self.entries[i].0 == *lang {
                proof {
                    lemma_map_of_index(lang_views(self.entries@), i as int);
                }
                return Some(&self.entries[i].1);
            }
            i += 1;
        }
        proof {
            lemma_map_of_absent(lang_views(self.entries@), lang@);
        }
        None
    }
}

impl Clone for LangSnippetTable {
    /// An equal table, language for language.
    fn clone(&self) -> (r: Self)
        ensures
            r@ == self@,
            self.wf() ==> r.wf(),
    {
        let mut entries: Vec<(String, SnippetSet)> = Vec::new();
        let mut i: usize = 0;
        while i < self.entries.len()
            invariant
                i <= self.entries.len(),
                entries@.len() == i,
                forall|j: int|
                    0 <= j < i ==> (#[trigger] entries@[j]).0@ == self.entries@[j].0@
                        && entries@[j].1@ == self.entries@[j].1@ && (entries@[j].1.wf()
                        <==> self.entries@[j].1.wf()),
            decreases self.entries.len() - i,
        {
            entries.push((self.entries[i].0.clone(), self.entries[i].1.clone()));
            i += 1;
        }
        proof {
            assert forall|j: int| 0 <= j < entries@.len() implies lang_views(entries@)[j]
                == lang_views(self.entries@)[j] by {
                assert(lang_views(entries@)[j] == (entries@[j].0@, entries@[j].1@));
            }
            assert(lang_views(entries@) =~= lang_views(self.entries@));
        }
        LangSnippetTable { entries }
    }
}

/// The merge of two tables: a language of either side is present, and where a
/// language is in both, the overlay's bodies replace the base's, trigger by
/// trigger; a language only in the overlay keeps its snippet set unchanged.
pub open spec fn spec_merge(
    a: Map<Seq<char>, Map<Seq<char>, Seq<char>>>,
    b: Map<Seq<char>, Map<Seq<char>, Seq<char>>>,
) -> Map<Seq<char>, Map<Seq<char>, Seq<char>>> {
    Map::new(
        |k: Seq<char>| a.contains_key(k) || b.contains_key(k),
        |k: Seq<char>|
            if b.contains_key(k) {
                if a.contains_key(k) {
                    a[k].union_prefer_right(b[k])
                } else {
                    b[k]
                }
            } else {
                a[k]
            },
    )
}

/// Inserting into the right of a right-preferring union inserts into the union.
proof fn lemma_union_insert(
    x: Map<Seq<char>, Seq<char>>,
    y: Map<Seq<char>, Seq<char>>,
    k: Seq<char>,
    v: Seq<char>,
)
    ensures
        x.union_prefer_right(y.insert(k, v)) == x.union_prefer_right(y).insert(k, v),
{
    assert(x.union_prefer_right(y.insert(k, v)) =~= x.union_prefer_right(y).insert(k, v));
}

/// Inserting a language into the overlay inserts its merged set into the merge.
proof fn lemma_merge_insert(
    a: Map<Seq<char>, Map<Seq<char>, Seq<char>>>,
    m: Map<Seq<char>, Map<Seq<char>, Seq<char>>>,
    k: Seq<char>,
    sv: Map<Seq<char>, Seq<char>>,
)
    ensures
        spec_merge(a, m.insert(k, sv)) == spec_merge(a, m).insert(
            k,
            if a.contains_key(k) {
                a[k].union_prefer_right(sv)
            } else {
                sv
            },
        ),
{
    assert(spec_merge(a, m.insert(k, sv)) =~= spec_merge(a, m).insert(
        k,
        if a.contains_key(k) {
            a[k].union_prefer_right(sv)
        } else {
            sv
        },
    ));
}

/// The base set with the overlay's bodies written over it, trigger by trigger.
fn set_union(base: &SnippetSet, overlay: &SnippetSet) -> (r: SnippetSet)
    requires
        base.wf(),
        overlay.wf(),
    ensures
        r.wf(),
        r@ == base@.union_prefer_right(overlay@),
{
    let ghost ov = kv_views(overlay.entries@);
    let mut r = base.clone();
    proof {
        assert(ov.take(0) =~= Seq::<(Seq<char>, Seq<char>)>::empty());
        assert(base@.union_prefer_right(map_of(ov.take(0))) =~= base@);
    }
    let mut i: usize = 0;
    while i < overlay.entries.len()
        invariant
            base.wf(),
            overlay.wf(),
            ov == kv_views(overlay.entries@),
            i <= overlay.entries.len(),
            r.wf(),
            r@ == base@.union_prefer_right(map_of(ov.take(i as int))),
        decreases overlay.entries.len() - i,
    {
        proof {
            assert(ov[i as int] == (overlay.entries@[i as int].0@, overlay.entries@[i as int].1@));
        }
        r.insert(overlay.entries[i].0.clone(), overlay.entries[i].1.clone());
        proof {
            lemma_union_insert(base@, map_of(ov.take(i as int)), ov[i as int].0, ov[i as int].1);
            assert(ov.take(i as int + 1) =~= ov.take(i as int).push(ov[i as int]));
            lemma_map_of_push(ov.take(i as int), ov[i as int].0, ov[i as int].1);
        }
        i += 1;
    }
    proof {
        assert(ov.take(overlay.entries@.len() as int) =~= ov);
    }
    r
}

/// Writes the overlay table over the base table. Every language of either
/// table is in the result; a shared language's snippet sets are combined with
/// the overlay's bodies replacing the base's at shared triggers.
pub fn merge_snippets(s: LangSnippetTable, snippets: LangSnippetTable) -> (r: LangSnippetTable)
    requires
        s.wf(),
        snippets.wf(),
    ensures
        r.wf(),
        r@ == spec_merge(s@, snippets@),
{
    let ghost a = s@;
    let ghost ov = lang_views(snippets.entries@);
    let mut acc = s;
    proof {
        assert(ov.take(0) =~= Seq::<(Seq<char>, Map<Seq<char>, Seq<char>>)>::empty());
        assert(spec_merge(a, map_of(ov.take(0))) =~= a);
    }
    let mut i: usize = 0;
    while i < snippets.entries.len()
        invariant
            snippets.wf(),
            ov == lang_views(snippets.entries@),
            i <= snippets.entries.len(),
            acc.wf(),
            acc@ == spec_merge(a, map_of(ov.take(i as int))),
        decreases snippets.entries.len() - i,
    {
        let ghost m = map_of(ov.take(i as int));
        let ghost k = ov[i as int].0;
        let ghost sv = ov[i as int].1;
        proof {
            assert(ov[i as int] == (snippets.entries@[i as int].0@, snippets.entries@[i as int].1@));
            assert(snippets.entries@[i as int].1.wf());
            assert forall|j: int| 0 <= j < ov.take(i as int).len() implies (#[trigger] ov.take(
                i as int,
            )[j]).0 != k by {
                assert(ov.take(i as int)[j] == ov[j]);
            }
            lemma_map_of_absent(ov.take(i as int), k);
        }
        let lang = snippets.entries[i].0.clone();
        let merged: SnippetSet = match acc.get(&lang) {
            Some(base_set) => set_union(base_set, &snippets.entries[i].1),
            None => snippets.entries[i].1.clone(),
        };
        proof {
            assert(merged@ == if a.contains_key(k) {
                a[k].union_prefer_right(sv)
            } else {
                sv
            });
        }
        acc.insert(lang, merged);
        proof {
            lemma_merge_insert(a, m, k, sv);
            assert(ov.take(i as int + 1) =~= ov.take(i as int).push(ov[i as int]));
            lemma_map_of_push(ov.take(i as int), k, sv);
        }
        i += 1;
    }
    proof {
        assert(ov.take(snippets.entries@.len() as int) =~= ov);
    }
    acc
}

/// Whether every trigger of `x` is in `y` with the same body.
fn set_subset(x: &SnippetSet, y: &SnippetSet) -> (r: bool)
    requires
        x.wf(),
        y.wf(),
    ensures
        r == (forall|k: Seq<char>| #[trigger]
            x@.contains_key(k) ==> y@.contains_key(k) && y@[k] == x@[k]),
{
    let ghost xs = kv_views(x.entries@);
    let mut i: usize = 0;
    while i < x.entries.len()
        invariant
            x.wf(),
            y.wf(),
            xs == kv_views(x.entries@),
            i <= x.entries.len(),
            forall|j: int|
                0 <= j < i ==> y@.contains_key((#[trigger] xs[j]).0) && y@[xs[j].0] == xs[j].1,
        decreases x.entries.len() - i,
    {
        proof {
            assert(xs[i as int] == (x.entries@[i as int].0@, x.entries@[i as int].1@));
            lemma_map_of_index(xs, i as int);
        }
        match y.get(&x.entries[i].0) {
            Some(body) => {
                if !(*body == x.entries[i].1) {
                    proof {
                        assert(x@.contains_key(xs[i as int].0));
                        assert(x@[xs[i as int].0] == xs[i as int].1);
                        assert(y@[xs[i as int].0] != x@[xs[i as int].0]);
                    }
                    return false;
                }
            },
            None => {
                proof {
                    assert(x@.contains_key(xs[i as int].0));
                    assert(!y@.contains_key(xs[i as int].0));
                }
                return false;
            },
        }
        i += 1;
    }
    proof {
        assert forall|k: Seq<char>| #[trigger]
            x@.contains_key(k) implies y@.contains_key(k) && y@[k] == x@[k] by {
            lemma_map_of_key_index(xs, k);
            let j = choose|j: int| 0 <= j < xs.len() && (#[trigger] xs[j]).0 == k;
            lemma_map_of_index(xs, j);
        }
    }
    true
}

/// Whether two snippet sets hold the same triggers with the same bodies.
pub fn set_eq(x: &SnippetSet, y: &SnippetSet) -> (r: bool)
    requires
        x.wf(),
        y.wf(),
    ensures
        r == (x@ == y@),
{
    let r = set_subset(x, y) && set_subset(y, x);
    proof {
        if r {
            assert(x@ =~= y@);
        }
    }
    r
}

/// Whether every language of `x` is in `y` with an equal snippet set.
fn table_subset(x: &LangSnippetTable, y: &LangSnippetTable) -> (r: bool)
    requires
        x.wf(),
        y.wf(),
    ensures
        r == (forall|k: Seq<char>| #[trigger]
            x@.contains_key(k) ==> y@.contains_key(k) && y@[k] == x@[k]),
{
    let ghost xs = lang_views(x.entries@);
    let mut i: usize = 0;
    while i < x.entries.len()
        invariant
            x.wf(),
            y.wf(),
            xs == lang_views(x.entries@),
            i <= x.entries.len(),
            forall|j: int|
                0 <= j < i ==> y@.contains_key((#[trigger] xs[j]).0) && y@[xs[j].0] == xs[j].1,
        decreases x.entries.len() - i,
    {
        proof {
            assert(xs[i as int] == (x.entries@[i as int].0@, x.entries@[i as int].1@));
            assert(x.entries@[i as int].1.wf());
            lemma_map_of_index(xs, i as int);
        }
        match y.get(&x.entries[i].0) {
            Some(set) => {
                if !set_eq(&x.entries[i].1, set) {
                    proof {
                        assert(x@.contains_key(xs[i as int].0));
                        assert(x@[xs[i as int].0] == xs[i as int].1);
                        assert(y@[xs[i as int].0] != x@[xs[i as int].0]);
                    }
                    return false;
                }
            },
            None => {
                proof {
                    assert(x@.contains_key(xs[i as int].0));
                    assert(!y@.contains_key(xs[i as int].0));
                }
                return false;
            },
        }
        i += 1;
    }
    proof {
        assert forall|k: Seq<char>| #[trigger]
            x@.contains_key(k) implies y@.contains_key(k) && y@[k] == x@[k] by {
            lemma_map_of_key_index(xs, k);
            let j = choose|j: int| 0 <= j < xs.len() && (#[trigger] xs[j]).0 == k;
            lemma_map_of_index(xs, j);
        }
    }
    true
}

/// Whether two tables hold the same languages with equal snippet sets.
pub fn table_eq(x: &LangSnippetTable, y: &LangSnippetTable) -> (r: bool)
    requires
        x.wf(),
        y.wf(),
    ensures
        r == (x@ == y@),
{
    let r = table_subset(x, y) && table_subset(y, x);
    proof {
        if r {
            assert(x@ =~= y@);
        }
    }
    r
}

/// Identity laws: merging the empty table on either side changes nothing.
pub proof fn lemma_merge_identity(
    a: Map<Seq<char>, Map<Seq<char>, Seq<char>>>,
    b: Map<Seq<char>, Map<Seq<char>, Seq<char>>>,
)
    ensures
        spec_merge(a, Map::<Seq<char>, Map<Seq<char>, Seq<char>>>::empty()) == a,
        spec_merge(Map::<Seq<char>, Map<Seq<char>, Seq<char>>>::empty(), b) == b,
{
    assert(spec_merge(a, Map::<Seq<char>, Map<Seq<char>, Seq<char>>>::empty()) =~= a);
    assert(spec_merge(Map::<Seq<char>, Map<Seq<char>, Seq<char>>>::empty(), b) =~= b);
}

/// The overlay wins: at a language and trigger present in both tables, the
/// merged table carries the overlay's body.
pub proof fn lemma_merge_overlay_wins(
    a: Map<Seq<char>, Map<Seq<char>, Seq<char>>>,
    b: Map<Seq<char>, Map<Seq<char>, Seq<char>>>,
    lang: Seq<char>,
    trigger: Seq<char>,
)
    requires
        a.contains_key(lang),
        b.contains_key(lang),
        a[lang].contains_key(trigger),
        b[lang].contains_key(trigger),
    ensures
        spec_merge(a, b).contains_key(lang),
        spec_merge(a, b)[lang].contains_key(trigger),
        spec_merge(a, b)[lang][trigger] == b[lang][trigger],
{
}

/// A language only the overlay has enters the merge with its snippet set
/// unchanged.
pub proof fn lemma_merge_new_language(
    a: Map<Seq<char>, Map<Seq<char>, Seq<char>>>,
    b: Map<Seq<char>, Map<Seq<char>, Seq<char>>>,
    lang: Seq<char>,
)
    requires
        b.contains_key(lang),
        !a.contains_key(lang),
    ensures
        spec_merge(a, b).contains_key(lang),
        spec_merge(a, b)[lang] == b[lang],
{
}

/// Merging the same overlay twice is the same as merging it once.
pub proof fn lemma_merge_idempotent(
    a: Map<Seq<char>, Map<Seq<char>, Seq<char>>>,
    b: Map<Seq<char>, Map<Seq<char>, Seq<char>>>,
)
    ensures
        spec_merge(spec_merge(a, b), b) == spec_merge(a, b),
{
    let m = spec_merge(a, b);
    assert forall|k: Seq<char>| #[trigger]
        spec_merge(m, b).contains_key(k) implies m.contains_key(k) && spec_merge(m, b)[k]
        == m[k] by {
        if b.contains_key(k) {
            if a.contains_key(k) {
                assert(m[k] == a[k].union_prefer_right(b[k]));
                assert(m[k].union_prefer_right(b[k]) =~= m[k]);
            } else {
                assert(m[k] == b[k]);
                assert(m[k].union_prefer_right(b[k]) =~= m[k]);
            }
        }
    }
    assert(spec_merge(m, b) =~= m);
}

} // verus!
