//! A single-table store: one in-memory map in which a deletion always leaves
//! a tombstone.
use crate::layer::memory::{distinct_keys, find_entry, put_entry, records_of, Entry};
use crate::layer::{Record, Records, Value};
use vstd::prelude::*;
use vstd::string::*;

verus! {

/// The store. It holds each key once, with its record.
pub struct LSMTree {
    mem: Vec<Entry>,
}

impl View for LSMTree {
    type V = Records;

    closed spec fn view(&self) -> Records {
        records_of(self.mem@)
    }
}

impl LSMTree {
    /// Well-formedness: no key is held twice.
    pub closed spec fn inv(&self) -> bool {
        distinct_keys(self.mem@)
    }

    /// A store without records.
    pub fn new() -> (tree: LSMTree)
        ensures
            tree.inv(),
            tree@ == Records::empty(),
    {
        let tree = LSMTree { mem: Vec::new() };
        assert(tree@ =~= Records::empty());
        tree
    }

    /// Opening a stored table is not provided: this always fails, with the
    /// message `not implemented`.
    pub fn open(uri: &str) -> (res: Result<LSMTree, String>)
        ensures
            res matches Err(msg) && msg@ == "not implemented"@,
    {
        Err(String::from_str("not implemented"))
    }

    /// Stores `value` under `key` as a live record. This always succeeds.
    pub fn set(&mut self, key: &Vec<u8>, value: &Vec<u8>) -> (done: bool)
        requires
            old(self).inv(),
        ensures
            final(self).inv(),
            done,
            final(self)@ == old(self)@.insert(key@, Record { payload: value@, deleted: false }),
    {
        put_entry(&mut self.mem, key, Value::new(value));
        true
    }

    /// The value stored under `key`, unless the key is absent or deleted.
    pub fn get(&self, key: &Vec<u8>) -> (res: Option<&Vec<u8>>)
        requires
            self.inv(),
        ensures
            res is Some <==> self@.dom().contains(key@) && !self@[key@].deleted,
            res matches Some(v) ==> v@ == self@[key@].payload,
    {
        match find_entry(&self.mem, key) {
            Some(i) => {
                if self.mem[i].value.deleted {
                    None
                } else {
                    Some(&self.mem[i].value.value)
                }
            },
            None => None,
        }
    }

    /// Marks `key` as deleted, whether or not it was there: a tombstone
    /// without payload takes the place of its record. This always succeeds.
    pub fn del(&mut self, key: &Vec<u8>) -> (done: bool)
        requires
            old(self).inv(),
        ensures
            final(self).inv(),
            done,
            final(self)@ == old(self)@.insert(
                key@,
                Record { payload: Seq::<u8>::empty(), deleted: true },
            ),
    {
        let mut val = Value::new(&Vec::new());
        val.deleted = true;
        put_entry(&mut self.mem, key, val);
        true
    }
}

} // verus!
