//! The snapshot of currently pressed keys, as polled from the device
//! collaborator: a set of opaque key codes without duplicates.

use vstd::prelude::*;

verus! {

broadcast use vstd::seq_lib::group_seq_properties;

/// No code occurs twice in the sequence.
pub open spec fn nodup(codes: Seq<u32>) -> bool {
    forall|i: int, j: int| 0 <= i < j < codes.len() ==> codes[i] != codes[j]
}

/// A polled keyboard snapshot: the codes of the keys held down at one
/// tick, compared by set membership only.
pub struct KeySet {
    codes: Vec<u32>,
}

impl KeySet {
    /// The stored codes, in the order the snapshot lists them.
    pub closed spec fn codes(&self) -> Seq<u32> {
        self.codes@
    }

    /// The snapshot as a set of codes.
    pub open spec fn as_set(&self) -> Set<u32> {
        self.codes().to_set()
    }

    /// Well-formed: no duplicate codes.
    pub open spec fn wf(&self) -> bool {
        nodup(self.codes())
    }

    /// An empty snapshot: no key is down.
    pub fn new() -> (r: KeySet)
        ensures
            r.wf(),
            r.codes() == Seq::<u32>::empty(),
    {
        KeySet { codes: Vec::new() }
    }

    pub fn len(&self) -> (n: usize)
        ensures
            n == self.codes().len(),
    {
        self.codes.len()
    }

    pub fn code_at(&self, i: usize) -> (c: u32)
        requires
            i < self.codes().len(),
        ensures
            c == self.codes()[i as int],
    {
        self.codes[i]
    }

    pub fn contains(&self, code: u32) -> (r: bool)
        ensures
            r == self.as_set().contains(code),
    {
        let n = self.codes.len();
        let mut i: usize = 0;
        while i < n
            invariant
                i <= n,
                n == self.codes().len(),
                forall|k: int| 0 <= k < i ==> self.codes()[k] != code,
            decreases n - i,
        {
            if self.codes[i] == code {
                return true;
            }
            i += 1;
        }
        false
    }

    /// Record one more pressed code; a code already present is ignored.
    pub fn insert(&mut self, code: u32)
        requires
            old(self).wf(),
        ensures
            final(self).wf(),
            final(self).codes() == (if old(self).codes().contains(code) {
                old(self).codes()
            } else {
                old(self).codes().push(code)
            }),
    {
        if !self.contains(code) {
            self.codes.push(code);
        }
    }

    /// Build a snapshot from polled codes, dropping any duplicates.
    pub fn from_codes(codes: &Vec<u32>) -> (r: KeySet)
        ensures
            r.wf(),
            r.as_set() == codes@.to_set(),
    {
        let n = codes.len();
        let mut r = KeySet::new();
        let mut i: usize = 0;
        while i < n
            invariant
                i <= n,
                n == codes@.len(),
                r.wf(),
                forall|c: u32| r.codes().contains(c) <==> #[trigger] codes@.take(i as int).contains(c),
            decreases n - i,
        {
            let c = codes[i];
            let ghost r0 = r.codes();
            r.insert(c);
            proof {
                assert(codes@.take(i + 1) =~= codes@.take(i as int).push(codes@[i as int]));
                assert forall|d: u32| r.codes().contains(d) <==> #[trigger] codes@.take(
                    i + 1,
                ).contains(d) by {
                    if r0.contains(c) {
                        assert(r.codes() == r0);
                    } else {
                        assert(r.codes() == r0.push(c));
                    }
                }
            }
            i += 1;
        }
        proof {
            assert(codes@.take(n as int) =~= codes@);
            assert(r.as_set() =~= codes@.to_set());
        }
        r
    }
}

} // verus!
