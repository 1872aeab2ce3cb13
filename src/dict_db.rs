//! A base state held in memory: the state that a block of transactions
//! starts from, and that the writes of its outputs are applied to.

use crate::mvhashmap::Key;
use std::collections::HashMap;
use vstd::prelude::*;

verus! {

broadcast use vstd::std_specs::hash::group_hash_axioms;

/// One write of a transaction output.
pub enum WriteOp {
    /// The key is removed.
    Deletion,
    /// The key is set to these bytes.
    Value(Vec<u8>),
}

/// The state after applying `ops` in order to `m`.
pub open spec fn apply_ops(m: Map<Key, Seq<u8>>, ops: Seq<(Key, WriteOp)>) -> Map<Key, Seq<u8>>
    decreases ops.len(),
{
    if ops.len() == 0 {
        m
    } else {
        let prev = apply_ops(m, ops.drop_last());
        match ops.last().1 {
            WriteOp::Deletion => prev.remove(ops.last().0),
            WriteOp::Value(v) => prev.insert(ops.last().0, v@),
        }
    }
}

/// The state after applying the write sets `outputs` in order to `m`.
pub open spec fn apply_outputs(m: Map<Key, Seq<u8>>, outputs: Seq<Vec<(Key, WriteOp)>>) -> Map<
    Key,
    Seq<u8>,
>
    decreases outputs.len(),
{
    if outputs.len() == 0 {
        m
    } else {
        apply_ops(apply_outputs(m, outputs.drop_last()), outputs.last()@)
    }
}

/// A map from keys to bytes.
pub struct DictDB {
    pub db: HashMap<Key, Vec<u8>>,
    pub boot: bool,
}

impl DictDB {
    /// The bytes under each key.
    pub open spec fn contents(&self) -> Map<Key, Seq<u8>> {
        self.db@.map_values(|v: Vec<u8>| v@)
    }

    /// An empty state that is the genesis state.
    pub fn new() -> (r: DictDB)
        ensures
            r.contents() == Map::<Key, Seq<u8>>::empty(),
            r.boot,
    {
        let r = DictDB { db: HashMap::new(), boot: true };
        assert(r.contents() =~= Map::<Key, Seq<u8>>::empty());
        r
    }

    /// Applies the write set of each output, in order.
    pub fn update(&mut self, tx_output: Vec<Vec<(Key, WriteOp)>>)
        ensures
            final(self).contents() == apply_outputs(old(self).contents(), tx_output@),
            final(self).boot == old(self).boot,
    {
        let ghost start = self.contents();
        let mut o: usize = 0;
        while o < tx_output.len()
            invariant
                o <= tx_output.len(),
                self.boot == old(self).boot,
                start == old(self).contents(),
                self.contents() == apply_outputs(start, tx_output@.take(o as int)),
            decreases tx_output.len() - o,
        {
            let ops = &tx_output[o];
            let ghost mid = self.contents();
            let mut i: usize = 0;
            proof {
                assert(ops@.take(0) =~= Seq::<(Key, WriteOp)>::empty());
            }
            while i < ops.len()
                invariant
                    o < tx_output.len(),
                    ops == &tx_output@[o as int],
                    i <= ops.len(),
                    self.boot == old(self).boot,
                    self.contents() == apply_ops(mid, ops@.take(i as int)),
                decreases ops.len() - i,
            {
                let ghost before = self.contents();
                let (k, op) = (&ops[i].0, &ops[i].1);
                match op {
                    WriteOp::Deletion => {
                        self.db.remove(k);
                        assert(self.contents() =~= before.remove(*k));
                    },
                    WriteOp::Value(v) => {
                        let bytes = v.clone();
                        assert(bytes@ =~= v@);
                        self.db.insert(*k, bytes);
                        assert(self.contents() =~= before.insert(*k, v@));
                    },
                }
                proof {
                    assert(ops@.take(i + 1).drop_last() =~= ops@.take(i as int));
                    assert(ops@.take(i + 1).last() == ops@[i as int]);
                }
                i += 1;
            }
            proof {
                assert(ops@.take(i as int) =~= ops@);
                assert(tx_output@.take(o + 1).drop_last() =~= tx_output@.take(o as int));
                assert(tx_output@.take(o + 1).last() == tx_output@[o as int]);
            }
            o += 1;
        }
        proof {
            assert(tx_output@.take(o as int) =~= tx_output@);
        }
    }

    /// The bytes under `access_path`, if any.
    pub fn get(&self, access_path: &Key) -> (r: Option<Vec<u8>>)
        ensures
            match r {
                Some(v) => self.contents().contains_key(*access_path) && v@ == self.contents()[*access_path],
                None => !self.contents().contains_key(*access_path),
            },
    {
        match self.db.get(access_path) {
            None => None,
            Some(x) => {
                let c = x.clone();
                assert(c@ =~= x@);
                Some(c)
            },
        }
    }

    /// The bytes under each of `access_paths`, in order.
    pub fn multi_get(&self, access_paths: &Vec<Key>) -> (r: Vec<Option<Vec<u8>>>)
        ensures
            r.len() == access_paths.len(),
            forall|i: int|
                0 <= i < r.len() ==> match #[trigger] r@[i] {
                    Some(v) => self.contents().contains_key(access_paths@[i]) && v@
                        == self.contents()[access_paths@[i]],
                    None => !self.contents().contains_key(access_paths@[i]),
                },
    {
        let mut results: Vec<Option<Vec<u8>>> = Vec::new();
        let mut i: usize = 0;
        while i < access_paths.len()
            invariant
                i <= access_paths.len(),
                results.len() == i,
                forall|j: int|
                    0 <= j < i ==> match #[trigger] results@[j] {
                        Some(v) => self.contents().contains_key(access_paths@[j]) && v@
                            == self.contents()[access_paths@[j]],
                        None => !self.contents().contains_key(access_paths@[j]),
                    },
            decreases access_paths.len() - i,
        {
            results.push(self.get(&access_paths[i]));
            i += 1;
        }
        results
    }

    /// Whether this is the genesis state.
    pub fn is_genesis(&self) -> (r: bool)
        ensures
            r == self.boot,
    {
        self.boot
    }
}

} // verus!
