//! The live mapping of an engine: a flat key-to-value table with pairwise
//! distinct keys, viewed as a `Map<Seq<char>, Seq<char>>`. It replaces the
//! standard hash map so that every operation carries a proved contract.

use vstd::prelude::*;

use crate::codec::{CommandModel, lemma_replay_push, replay};
use crate::kv_store::{Command, cmds_view};

verus! {

/// The views of a table's entries.
pub open spec fn entry_views(es: Seq<(String, String)>) -> Seq<(Seq<char>, Seq<char>)> {
    es.map_values(|p: (String, String)| (p.0@, p.1@))
}

/// The mapping that a sequence of entries denotes; a later entry for the
/// same key would win, though the table never holds one.
pub open spec fn map_of(es: Seq<(Seq<char>, Seq<char>)>) -> Map<Seq<char>, Seq<char>>
    decreases es.len(),
{
    if es.len() == 0 {
        Map::empty()
    } else {
        map_of(es.drop_last()).insert(es.last().0, es.last().1)
    }
}

/// No two entries share a key.
pub open spec fn distinct_keys(es: Seq<(Seq<char>, Seq<char>)>) -> bool {
    forall|i: int, j: int| 0 <= i < j < es.len() ==> (#[trigger] es[i]).0 != (#[trigger] es[j]).0
}

/// What a table with distinct keys denotes: its domain is exactly its keys,
/// each key maps to its entry's value, and the mapping is as large as the
/// table.
pub proof fn lemma_map_of_props(es: Seq<(Seq<char>, Seq<char>)>)
    requires
        distinct_keys(es),
    ensures
        map_of(es).dom().finite(),
        map_of(es).dom().len() == es.len(),
        forall|i: int|
            0 <= i < es.len() ==> map_of(es).contains_key((#[trigger] es[i]).0) && map_of(
                es,
            )[es[i].0] == es[i].1,
        forall|k: Seq<char>|
            map_of(es).contains_key(k) ==> exists|i: int|
                0 <= i < es.len() && (#[trigger] es[i]).0 == k,
    decreases es.len(),
{
    broadcast use vstd::set::axiom_set_insert_len;

    if es.len() > 0 {
        let dl = es.drop_last();
        let e = es.last();
        lemma_map_of_props(dl);
        if map_of(dl).contains_key(e.0) {
            let i = choose|i: int| 0 <= i < dl.len() && (#[trigger] dl[i]).0 == e.0;
            assert(es[i].0 == es[es.len() - 1].0);
            assert(false);
        }
        assert(map_of(es).dom() =~= map_of(dl).dom().insert(e.0));
        assert forall|i: int| 0 <= i < es.len() implies map_of(es).contains_key(
            (#[trigger] es[i]).0,
        ) && map_of(es)[es[i].0] == es[i].1 by {
            if i < es.len() - 1 {
                assert(dl[i] == es[i]);
                assert(es[i].0 != e.0);
            }
        }
        assert forall|k: Seq<char>| map_of(es).contains_key(k) implies exists|i: int|
            0 <= i < es.len() && (#[trigger] es[i]).0 == k by {
            if k == e.0 {
                assert((es[es.len() - 1]).0 == k);
            } else {
                let i = choose|i: int| 0 <= i < dl.len() && (#[trigger] dl[i]).0 == k;
                assert((es[i]).0 == k);
            }
        }
    }
}

/// A flat mapping from text keys to text values, keys unique.
pub struct KvMap {
    entries: Vec<(String, String)>,
}

impl View for KvMap {
    type V = Map<Seq<char>, Seq<char>>;

    closed spec fn view(&self) -> Map<Seq<char>, Seq<char>> {
        map_of(entry_views(self.entries@))
    }
}

impl KvMap {
    /// The table's well-formedness: no key twice.
    pub closed spec fn wf(&self) -> bool {
        distinct_keys(entry_views(self.entries@))
    }

    /// An empty mapping.
    pub fn new() -> (r: KvMap)
        ensures
            r.wf(),
            r@ == Map::<Seq<char>, Seq<char>>::empty(),
    {
        let r = KvMap { entries: Vec::new() };
        proof {
            assert(entry_views(r.entries@) =~= Seq::<(Seq<char>, Seq<char>)>::empty());
        }
        r
    }

    /// How many keys are live.
    pub fn len(&self) -> (r: usize)
        requires
            self.wf(),
        ensures
            r == self@.dom().len(),
    {
        proof {
            lemma_map_of_props(entry_views(self.entries@));
        }
        self.entries.len()
    }

    /// The position of a key in the table, if it is there.
    fn find(&self, key: &String) -> (r: Option<usize>)
        ensures
            r matches Some(i) ==> i < self.entries@.len() && self.entries@[i as int].0@ == key@,
            r is None ==> forall|j: int|
                0 <= j < self.entries@.len() ==> (#[trigger] self.entries@[j]).0@ != key@,
    {
        let n = self.entries.len();
        let mut i: usize = 0;
        while i < n
            invariant
                n == self.entries@.len(),
                i <= n,
                forall|j: int| 0 <= j < i ==> (#[trigger] self.entries@[j]).0@ != key@,
            decreases n - i,
        {
            if self.entries[i].0 == *key {
                return Some(i);
            }
            i = i + 1;
        }
        None
    }

    /// The value a key maps to, if any.
    pub fn get(&self, key: &String) -> (r: Option<&String>)
        requires
            self.wf(),
        ensures
            r matches Some(v) ==> self@.contains_key(key@) && v@ == self@[key@],
            r is None ==> !self@.contains_key(key@),
    {
        proof {
            lemma_map_of_props(entry_views(self.entries@));
        }
        match self.find(key) {
            Some(i) => {
                proof {
                    assert(entry_views(self.entries@)[i as int].0 == key@);
                }
                Some(&self.entries[i].1)
            },
            None => {
                proof {
                    let es = entry_views(self.entries@);
                    if self@.contains_key(key@) {
                        let j = choose|j: int| 0 <= j < es.len() && (#[trigger] es[j]).0 == key@;
                        assert(self.entries@[j].0@ == key@);
                    }
                }
                None
            },
        }
    }

    /// Binds the key to the value, replacing any previous binding.
    pub fn insert(&mut self, key: String, value: String)
        requires
            old(self).wf(),
        ensures
            final(self).wf(),
            final(self)@ == old(self)@.insert(key@, value@),
    {
        let ghost es0 = entry_views(old(self).entries@);
        proof {
            lemma_map_of_props(es0);
        }
        match self.find(&key) {
            Some(i) => {
                self.entries[i] = (key, value);
                proof {
                    let es1 = entry_views(self.entries@);
                    assert(es1 =~= es0.update(i as int, (key@, value@)));
                    assert(es0[i as int].0 == key@);
                    assert(distinct_keys(es1)) by {
                        assert forall|p: int, q: int| 0 <= p < q < es1.len() implies (
                        #[trigger] es1[p]).0 != (#[trigger] es1[q]).0 by {
                            assert(es1[p].0 == es0[p].0);
                            assert(es1[q].0 == es0[q].0);
                        }
                    }
                    lemma_map_of_props(es1);
                    assert(self@ =~= old(self)@.insert(key@, value@)) by {
                        lemma_map_of_props(es0);
                        lemma_map_of_props(es1);
                        assert(es1[i as int].0 == key@);
                        assert forall|k: Seq<char>| #[trigger] self@.contains_key(k)
                            <==> old(self)@.insert(key@, value@).contains_key(k) by {
                            if self@.contains_key(k) {
                                let j = choose|j: int|
                                    0 <= j < es1.len() && (#[trigger] es1[j]).0 == k;
                                if j != i {
                                    assert(es0[j].0 == k);
                                }
                            }
                            if old(self)@.insert(key@, value@).contains_key(k) && k != key@ {
                                let j = choose|j: int|
                                    0 <= j < es0.len() && (#[trigger] es0[j]).0 == k;
                                assert(es1[j].0 == k);
                            }
                        }
                        assert forall|k: Seq<char>| #[trigger] self@.contains_key(k) implies self@[k]
                            == old(self)@.insert(key@, value@)[k] by {
                            let j = choose|j: int| 0 <= j < es1.len() && (#[trigger] es1[j]).0 == k;
                            assert(self@[k] == es1[j].1);
                            if j != i {
                                assert(es0[j] == es1[j]);
                                assert(es0[j].0 != key@);
                            }
                        }
                    }
                }
            },
            None => {
                self.entries.push((key, value));
                proof {
                    let es1 = entry_views(self.entries@);
                    assert(es1 =~= es0.push((key@, value@)));
                    assert(forall|j: int| 0 <= j < es0.len() ==> es1[j] == es0[j]);
                    assert(distinct_keys(es1));
                    assert(es1.drop_last() =~= es0);
                    assert(self@ == map_of(es0).insert(key@, value@));
                }
            },
        }
    }

    /// Unbinds the key, returning the value it had.
    pub fn remove(&mut self, key: &String) -> (r: Option<String>)
        requires
            old(self).wf(),
        ensures
            final(self).wf(),
            final(self)@ == old(self)@.remove(key@),
            r matches Some(v) ==> old(self)@.contains_key(key@) && v@ == old(self)@[key@],
            r is None ==> !old(self)@.contains_key(key@) && final(self)@ == old(self)@,
    {
        let ghost es0 = entry_views(old(self).entries@);
        proof {
            lemma_map_of_props(es0);
        }
        match self.find(key) {
            Some(i) => {
                let entry = self.entries.remove(i);
                proof {
                    let es1 = entry_views(self.entries@);
                    assert(es1 =~= es0.remove(i as int));
                    assert(forall|j: int| 0 <= j < i ==> es1[j] == es0[j]);
                    assert(forall|j: int| i <= j < es1.len() ==> es1[j] == es0[j + 1]);
                    assert(distinct_keys(es1)) by {
                        assert forall|p: int, q: int| 0 <= p < q < es1.len() implies (
                        #[trigger] es1[p]).0 != (#[trigger] es1[q]).0 by {
                            if p < i && q < i {
                            } else if p < i {
                                assert(es1[q] == es0[q + 1]);
                            } else {
                                assert(es1[p] == es0[p + 1]);
                                assert(es1[q] == es0[q + 1]);
                            }
                        }
                    }
                    lemma_map_of_props(es1);
                    assert(self@ =~= old(self)@.remove(key@)) by {
                        assert(es0[i as int].0 == key@);
                        assert forall|k: Seq<char>| #[trigger] self@.contains_key(k)
                            <==> old(self)@.remove(key@).contains_key(k) by {
                            if self@.contains_key(k) {
                                let j = choose|j: int|
                                    0 <= j < es1.len() && (#[trigger] es1[j]).0 == k;
                                if j < i {
                                    assert(es0[j].0 == k);
                                } else {
                                    assert(es0[j + 1].0 == k);
                                }
                                assert(k != key@);
                            }
                            if old(self)@.remove(key@).contains_key(k) {
                                let j = choose|j: int|
                                    0 <= j < es0.len() && (#[trigger] es0[j]).0 == k;
                                assert(j != i);
                                if j < i {
                                    assert(es1[j].0 == k);
                                } else {
                                    assert(es1[j - 1] == es0[j]);
                                }
                            }
                        }
                        assert forall|k: Seq<char>| #[trigger] self@.contains_key(k) implies self@[k]
                            == old(self)@.remove(key@)[k] by {
                            let j = choose|j: int| 0 <= j < es1.len() && (#[trigger] es1[j]).0 == k;
                            assert(self@[k] == es1[j].1);
                            if j < i {
                                assert(es0[j] == es1[j]);
                            } else {
                                assert(es0[j + 1] == es1[j]);
                            }
                        }
                    }
                    assert(entry_views(old(self).entries@)[i as int].0 == key@);
                }
                Some(entry.1)
            },
            None => {
                proof {
                    if old(self)@.contains_key(key@) {
                        let j = choose|j: int| 0 <= j < es0.len() && (#[trigger] es0[j]).0 == key@;
                        assert(self.entries@[j].0@ == key@);
                    }
                    assert(self@ =~= old(self)@.remove(key@));
                }
                None
            },
        }
    }
}

/// The mapping as the shortest log that rebuilds it: one `Set` record per
/// live key. Replaying the result reproduces the mapping exactly; this is
/// what compaction writes.
pub fn convert_map_to_commands(store_underlying: &KvMap) -> (r: Vec<Command>)
    requires
        store_underlying.wf(),
    ensures
        r@.len() == store_underlying@.dom().len(),
        forall|i: int| 0 <= i < r@.len() ==> (#[trigger] cmds_view(r@)[i]) is Put,
        replay(cmds_view(r@)) == store_underlying@,
{
    let ghost es = entry_views(store_underlying.entries@);
    proof {
        lemma_map_of_props(es);
    }
    let n = store_underlying.entries.len();
    let mut commands: Vec<Command> = Vec::new();
    let mut i: usize = 0;
    while i < n
        invariant
            store_underlying.wf(),
            es == entry_views(store_underlying.entries@),
            n == store_underlying.entries@.len(),
            i <= n,
            commands@.len() == i,
            forall|j: int| 0 <= j < i ==> (#[trigger] cmds_view(commands@)[j]) is Put,
            replay(cmds_view(commands@)) == map_of(es.take(i as int)),
        decreases n - i,
    {
        let key = store_underlying.entries[i].0.clone();
        let value = store_underlying.entries[i].1.clone();
        let ghost before = cmds_view(commands@);
        commands.push(Command::Put { key, value });
        proof {
            let m = CommandModel::Put { key: es[i as int].0, value: es[i as int].1 };
            assert(cmds_view(commands@) =~= before.push(m));
            lemma_replay_push(before, m);
            assert(es.take(i + 1).drop_last() =~= es.take(i as int));
            assert(es.take(i + 1).last() == es[i as int]);
        }
        i = i + 1;
    }
    proof {
        assert(es.take(n as int) =~= es);
        lemma_map_of_props(es);
    }
    commands
}

} // verus!
