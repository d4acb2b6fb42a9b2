//! The unspent-output index: output digest to (reserved flag, output).

use vstd::prelude::*;
use crate::transaction::{TransactionOutput, OutputModel};

verus! {

/// The map from output digest to (reserved flag, output) that the index stands for.
pub type UtxoMap = Map<crate::hash::Hash, (bool, OutputModel)>;

/// One unspent output; `reserved` marks it as claimed by a pending transaction.
#[derive(Clone, Debug)]
pub struct UtxoEntry {
    pub key: crate::hash::Hash,
    pub reserved: bool,
    pub output: TransactionOutput,
}

/// The map that a list of entries stands for, later entries winning.
pub open spec fn entries_map(s: Seq<UtxoEntry>) -> Map<crate::hash::Hash, (bool, OutputModel)>
    decreases s.len(),
{
    if s.len() == 0 {
        Map::empty()
    } else {
        entries_map(s.drop_last()).insert(s.last().key, (s.last().reserved, s.last().output@))
    }
}

pub open spec fn keys_unique(s: Seq<UtxoEntry>) -> bool {
    forall|i: int, j: int| 0 <= i < j < s.len() ==> s[i].key != s[j].key
}

proof fn lemma_absent(s: Seq<UtxoEntry>, k: crate::hash::Hash)
    requires
        forall|i: int| 0 <= i < s.len() ==> s[i].key != k,
    ensures
        !entries_map(s).contains_key(k),
    decreases s.len(),
{
    if s.len() > 0 {
        lemma_absent(s.drop_last(), k);
    }
}

proof fn lemma_at(s: Seq<UtxoEntry>, i: int)
    requires
        keys_unique(s),
        0 <= i < s.len(),
    ensures
        entries_map(s).contains_key(s[i].key),
        entries_map(s)[s[i].key] == (s[i].reserved, s[i].output@),
    decreases s.len(),
{
    if i < s.len() - 1 {
        lemma_at(s.drop_last(), i);
    }
}

proof fn lemma_update(s: Seq<UtxoEntry>, i: int, e: UtxoEntry)
    requires
        keys_unique(s),
        0 <= i < s.len(),
        e.key == s[i].key,
    ensures
        keys_unique(s.update(i, e)),
        entries_map(s.update(i, e)) == entries_map(s).insert(e.key, (e.reserved, e.output@)),
    decreases s.len(),
{
    let t = s.update(i, e);
    if i == s.len() - 1 {
        assert(t.drop_last() =~= s.drop_last());
    } else {
        assert(t.drop_last() =~= s.drop_last().update(i, e));
        lemma_update(s.drop_last(), i, e);
    }
    assert(entries_map(t) =~= entries_map(s).insert(e.key, (e.reserved, e.output@)));
}

proof fn lemma_remove(s: Seq<UtxoEntry>, i: int)
    requires
        keys_unique(s),
        0 <= i < s.len(),
    ensures
        keys_unique(s.remove(i)),
        entries_map(s.remove(i)) == entries_map(s).remove(s[i].key),
    decreases s.len(),
{
    let t = s.remove(i);
    let k = s[i].key;
    if i == s.len() - 1 {
        assert(t =~= s.drop_last());
        lemma_absent(s.drop_last(), k);
    } else {
        assert(t.drop_last() =~= s.drop_last().remove(i));
        lemma_remove(s.drop_last(), i);
    }
    assert(entries_map(t) =~= entries_map(s).remove(k));
}

proof fn lemma_len(s: Seq<UtxoEntry>)
    requires
        keys_unique(s),
    ensures
        entries_map(s).dom().finite(),
        entries_map(s).len() == s.len(),
    decreases s.len(),
{
    if s.len() > 0 {
        lemma_len(s.drop_last());
        lemma_absent(s.drop_last(), s.last().key);
    }
}

/// Unspent outputs, keyed by the digest of each output.
#[derive(Clone, Debug)]
pub struct UtxoSet {
    entries: Vec<UtxoEntry>,
}

impl View for UtxoSet {
    type V = Map<crate::hash::Hash, (bool, OutputModel)>;

    closed spec fn view(&self) -> Map<crate::hash::Hash, (bool, OutputModel)> {
        entries_map(self.entries@)
    }
}

impl UtxoSet {
    pub closed spec fn wf(&self) -> bool {
        keys_unique(self.entries@)
    }

    pub fn new() -> (r: UtxoSet)
        ensures
            r.wf(),
            r@ == Map::<crate::hash::Hash, (bool, OutputModel)>::empty(),
    {
        UtxoSet { entries: Vec::new() }
    }

    pub fn len(&self) -> (r: usize)
        requires
            self.wf(),
        ensures
            r == self@.len(),
            self@.dom().finite(),
    {
        proof {
            lemma_len(self.entries@);
        }
        self.entries.len()
    }

    fn find(&self, key: &crate::hash::Hash) -> (r: Option<usize>)
        requires
            self.wf(),
        ensures
            match r {
                Some(i) => i < self.entries@.len() && self.entries@[i as int].key == *key,
                None => !self@.contains_key(*key),
            },
    {
        let mut i: usize = 0;
        while i < self.entries.len()
            invariant
                0 <= i <= self.entries@.len(),
                forall|j: int| 0 <= j < i ==> self.entries@[j].key != *key,
            decreases self.entries@.len() - i,
        {
            if self.entries[i].key == *key {
                return Some(i);
            }
            i += 1;
        }
        proof {
            lemma_absent(self.entries@, *key);
        }
        None
    }

    pub fn contains_key(&self, key: &crate::hash::Hash) -> (r: bool)
        requires
            self.wf(),
        ensures
            r == self@.contains_key(*key),
    {
        match self.find(key) {
            Some(i) => {
                proof {
                    lemma_at(self.entries@, i as int);
                }
                true
            },
            None => false,
        }
    }

    /// The reserved flag and the output under `key`.
    pub fn get(&self, key: &crate::hash::Hash) -> (r: Option<(bool, &TransactionOutput)>)
        requires
            self.wf(),
        ensures
            match r {
                Some(p) => self@.contains_key(*key) && self@[*key] == (p.0, p.1@),
                None => !self@.contains_key(*key),
            },
    {
        match self.find(key) {
            Some(i) => {
                proof {
                    lemma_at(self.entries@, i as int);
                }
                Some((self.entries[i].reserved, &self.entries[i].output))
            },
            None => None,
        }
    }

    /// Sets the reserved flag of the entry under `key`, if there is one.
    pub fn set_reserved(&mut self, key: &crate::hash::Hash, reserved: bool)
        requires
            old(self).wf(),
        ensures
            final(self).wf(),
            final(self)@ == if old(self)@.contains_key(*key) {
                old(self)@.insert(*key, (reserved, old(self)@[*key].1))
            } else {
                old(self)@
            },
    {
        match self.find(key) {
            Some(i) => {
                let ghost s = self.entries@;
                proof {
                    lemma_at(s, i as int);
                }
                let mut e = self.entries.remove(i);
                e.reserved = reserved;
                self.entries.insert(i, e);
                proof {
                    assert(self.entries@ =~= s.update(i as int, e));
                    lemma_update(s, i as int, e);
                }
            },
            None => {},
        }
    }

    /// Puts `output` under `key`, replacing what was there.
    pub fn insert(&mut self, key: crate::hash::Hash, reserved: bool, output: TransactionOutput)
        requires
            old(self).wf(),
        ensures
            final(self).wf(),
            final(self)@ == old(self)@.insert(key, (reserved, output@)),
    {
        let e = UtxoEntry { key, reserved, output };
        match self.find(&key) {
            Some(i) => {
                let ghost s = self.entries@;
                self.entries.set(i, e);
                proof {
                    lemma_update(s, i as int, e);
                }
            },
            None => {
                let ghost s = self.entries@;
                proof {
                    assert forall|j: int| 0 <= j < s.len() implies s[j].key != key by {
                        if s[j].key == key {
                            lemma_at(s, j);
                        }
                    }
                }
                self.entries.push(e);
                assert(self.entries@.drop_last() =~= s);
            },
        }
    }

    /// Takes the entry under `key` out, if there is one.
    pub fn remove(&mut self, key: &crate::hash::Hash)
        requires
            old(self).wf(),
        ensures
            final(self).wf(),
            final(self)@ == old(self)@.remove(*key),
    {
        match self.find(key) {
            Some(i) => {
                let ghost s = self.entries@;
                self.entries.remove(i);
                proof {
                    lemma_remove(s, i as int);
                }
            },
            None => {
                assert(self@ =~= self@.remove(*key));
            },
        }
    }

    /// The entries, in no particular order.
    pub fn entries(&self) -> (r: &Vec<UtxoEntry>)
        ensures
            entries_map(r@) == self@,
    {
        &self.entries
    }
}

} // verus!
