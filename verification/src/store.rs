//! Backing store: the engine's in-memory key-value store, offering the
//! contract the trie needs — atomic single-key get and put over raw byte keys, and a
//! durability request.
//!
//! Every put is also recorded in an ordered write log, so an unverified outer
//! layer can mirror the store into an on-disk key-value engine by replaying
//! the log, and can rebuild a store from that engine's contents with `put`.
use vstd::prelude::*;
use crate::TrieError;

verus! {

/// The abstract contents of a run of store entries, later entries winning.
pub open spec fn entries_map(s: Seq<(Vec<u8>, Vec<u8>)>) -> Map<Seq<u8>, Seq<u8>>
    decreases s.len(),
{
    if s.len() == 0 {
        Map::empty()
    } else {
        entries_map(s.drop_last()).insert(s.last().0@, s.last().1@)
    }
}

/// In-memory byte-keyed store with an ordered log of the puts applied to it.
pub struct Store {
    entries: Vec<(Vec<u8>, Vec<u8>)>,
    writes: Vec<(Vec<u8>, Vec<u8>)>,
}

impl View for Store {
    type V = Map<Seq<u8>, Seq<u8>>;

    closed spec fn view(&self) -> Map<Seq<u8>, Seq<u8>> {
        entries_map(self.entries@)
    }
}

impl Store {
    /// The puts applied to this store since it was created or last drained,
    /// oldest first.
    pub closed spec fn log(self) -> Seq<(Seq<u8>, Seq<u8>)> {
        Seq::new(self.writes@.len(), |i: int| (self.writes@[i].0@, self.writes@[i].1@))
    }

    /// Creates an empty store.
    pub fn new() -> (s: Store)
        ensures
            s@ == Map::<Seq<u8>, Seq<u8>>::empty(),
            s.log() == Seq::<(Seq<u8>, Seq<u8>)>::empty(),
    {
        let s = Store { entries: Vec::new(), writes: Vec::new() };
        proof {
            assert(s.log() =~= Seq::<(Seq<u8>, Seq<u8>)>::empty());
        }
        s
    }

    /// Returns the value stored under `key`, if any.
    pub fn get(&self, key: &Vec<u8>) -> (r: Option<Vec<u8>>)
        ensures
            r matches Some(v) ==> self@.contains_key(key@) && v@ == self@[key@],
            r is None ==> !self@.contains_key(key@),
    {
        let mut i: usize = self.entries.len();
        proof {
            assert(self.entries@.take(i as int) =~= self.entries@);
        }
        while i > 0
            invariant
                i <= self.entries@.len(),
                entries_map(self.entries@).contains_key(key@) == entries_map(
                    self.entries@.take(i as int),
                ).contains_key(key@),
                entries_map(self.entries@).contains_key(key@) ==> entries_map(
                    self.entries@.take(i as int),
                )[key@] == entries_map(self.entries@)[key@],
            decreases i,
        {
            i = i - 1;
            let ghost pre = self.entries@.take(i as int + 1);
            proof {
                assert(pre.drop_last() =~= self.entries@.take(i as int));
                assert(pre.last() == self.entries@[i as int]);
            }
            if bytes_eq(&self.entries[i].0, key) {
                return Some(clone_bytes(&self.entries[i].1));
            }
        }
        proof {
            assert(self.entries@.take(0) =~= Seq::<(Vec<u8>, Vec<u8>)>::empty());
        }
        None
    }

    /// Stores `value` under `key`, replacing any earlier value, and records
    /// the put in the write log.
    pub fn put(&mut self, key: Vec<u8>, value: Vec<u8>)
        ensures
            final(self)@ == old(self)@.insert(key@, value@),
            final(self).log() == old(self).log().push((key@, value@)),
    {
        let log_key = clone_bytes(&key);
        let log_value = clone_bytes(&value);
        self.entries.push((key, value));
        self.writes.push((log_key, log_value));
        proof {
            assert(self.entries@.drop_last() =~= old(self).entries@);
            assert(self.log() =~= old(self).log().push((key@, value@)));
        }
    }

    /// Requests durability of the writes issued so far. The in-memory mirror
    /// is always durable, so this always succeeds; an outer layer that
    /// replays the write log performs its own durability request there.
    pub fn flush(&self) -> (r: Result<(), TrieError>)
        ensures
            r is Ok,
    {
        Ok(())
    }

    /// Hands out the puts applied since the last drain, oldest first, and
    /// empties the log. The stored contents are unchanged.
    pub fn take_writes(&mut self) -> (w: Vec<(Vec<u8>, Vec<u8>)>)
        ensures
            final(self)@ == old(self)@,
            final(self).log() == Seq::<(Seq<u8>, Seq<u8>)>::empty(),
            w@.len() == old(self).log().len(),
            forall|i: int|
                0 <= i < w@.len() ==> (#[trigger] w@[i].0@, w@[i].1@) == old(self).log()[i],
    {
        let mut drained: Vec<(Vec<u8>, Vec<u8>)> = Vec::new();
        core::mem::swap(&mut drained, &mut self.writes);
        proof {
            assert(self.log() =~= Seq::<(Seq<u8>, Seq<u8>)>::empty());
        }
        drained
    }
}

/// Compares two byte strings.
pub fn bytes_eq(a: &Vec<u8>, b: &Vec<u8>) -> (r: bool)
    ensures
        r == (a@ == b@),
{
    if a.len() != b.len() {
        return false;
    }
    let mut i: usize = 0;
    while i < a.len()
        invariant
            a@.len() == b@.len(),
            i <= a@.len(),
            forall|j: int| 0 <= j < i ==> a@[j] == b@[j],
        decreases a@.len() - i,
    {
        if a[i] != b[i] {
            return false;
        }
        i += 1;
    }
    proof {
        assert(a@ =~= b@);
    }
    true
}

/// Copies a byte string.
pub fn clone_bytes(a: &Vec<u8>) -> (r: Vec<u8>)
    ensures
        r@ == a@,
{
    let mut r: Vec<u8> = Vec::new();
    let mut i: usize = 0;
    while i < a.len()
        invariant
            i <= a@.len(),
            r@ == a@.take(i as int),
        decreases a@.len() - i,
    {
        r.push(a[i]);
        proof {
            assert(a@.take(i as int + 1) =~= a@.take(i as int).push(a@[i as int]));
        }
        i += 1;
    }
    proof {
        assert(a@.take(a@.len() as int) =~= a@);
    }
    r
}

} // verus!
