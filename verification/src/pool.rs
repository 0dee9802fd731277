//! Process pool: a fixed set of supervised processes for one model, with
//! stateless round-robin selection and whole-response assembly.

use vstd::prelude::*;
use vstd::arithmetic::div_mod::{
    lemma_add_mod_noop, lemma_mod_division_less_than_divisor, lemma_mod_sub_multiples_vanish,
    lemma_small_mod,
};

use crate::demux::NL;
use crate::supervisor::ErrorKind;

verus! {

/// A fixed-capacity pool of supervised processes for one logical model.
///
/// The pool itself only decides: which slot serves the next request, and
/// whether the pool may be used at all.  The process handles the slots stand
/// for are owned by the unverified driver, indexed `0..self.spawned`.
pub struct ProcessPool {
    /// Path of the child executable every slot runs.
    pub binary_path: String,
    /// The model every slot serves.
    pub model: String,
    /// How many processes the pool owns once initialized.
    pub capacity: usize,
    /// How many processes have been spawned so far; the pool is usable only
    /// when this reached `capacity`.
    pub spawned: usize,
    /// Round-robin selection counter, incremented once per selection.
    pub counter: u64,
}

impl ProcessPool {
    /// An empty pool that will own `pool_size` processes once initialized.
    pub fn new(binary_path: String, model: String, pool_size: usize) -> (r: Self)
        ensures
            r.binary_path@ == binary_path@,
            r.model@ == model@,
            r.capacity == pool_size,
            r.spawned == 0,
            r.counter == 0,
    {
        ProcessPool { binary_path, model, capacity: pool_size, spawned: 0, counter: 0 }
    }

    /// Initialization goes one successful spawn at a time; a single failed
    /// spawn aborts the whole initialization, so no partial pool is ever
    /// used.
    pub fn note_spawned(&mut self)
        requires
            old(self).spawned < old(self).capacity,
        ensures
            final(self).spawned == old(self).spawned + 1,
            final(self).binary_path@ == old(self).binary_path@,
            final(self).model@ == old(self).model@,
            final(self).capacity == old(self).capacity,
            final(self).counter == old(self).counter,
    {
        self.spawned = self.spawned + 1;
    }

    /// The pool either failed initialization (and owns nothing) or owns
    /// exactly its capacity.
    pub open spec fn initialized(self) -> bool {
        self.spawned == self.capacity
    }

    /// Whether every slot of the pool has been spawned.
    pub fn is_initialized(&self) -> (r: bool)
        ensures
            r == self.initialized(),
    {
        self.spawned == self.capacity
    }

    /// Round-robin selection: the index the `k`-th selection after counter
    /// value `c` picks, over `n` processes.
    pub open spec fn select_spec(c: u64, n: usize) -> int {
        c as int % n as int
    }

    /// Picks the process that serves the next request: stateless round-robin
    /// by a shared counter, modulo the pool size.  On an empty pool no
    /// process exists and selection fails.
    pub fn select_process(&mut self) -> (r: Result<usize, ErrorKind>)
        requires
            old(self).counter < u64::MAX,
        ensures
            final(self).binary_path@ == old(self).binary_path@,
            final(self).model@ == old(self).model@,
            final(self).capacity == old(self).capacity,
            final(self).spawned == old(self).spawned,
            old(self).spawned == 0 ==> r == Err::<usize, ErrorKind>(ErrorKind::PoolNotInitialized)
                && final(self).counter == old(self).counter,
            old(self).spawned > 0 ==> {
                &&& r == Ok::<usize, ErrorKind>(
                    Self::select_spec(old(self).counter, old(self).spawned) as usize,
                )
                &&& final(self).counter == old(self).counter + 1
            },
    {
        if self.spawned == 0 {
            return Err(ErrorKind::PoolNotInitialized);
        }
        let idx = (self.counter % (self.spawned as u64)) as usize;
        self.counter = self.counter + 1;
        proof {
            lemma_mod_division_less_than_divisor(old(self).counter as int, old(self).spawned as int);
        }
        Ok(idx)
    }

    /// Pool selection visits every slot: starting from any counter value
    /// `c`, the next `n` selections over `n` processes pick `n` distinct
    /// indices, each the successor of the previous one modulo `n` — no index
    /// is skipped or repeated.
    pub proof fn lemma_round_robin_visits_all(c: u64, n: usize)
        requires
            n > 0,
            c + n <= u64::MAX,
        ensures
            forall|a: int, b: int|
                0 <= a < b < n ==> #[trigger] Self::select_spec((c + a) as u64, n)
                    != #[trigger] Self::select_spec((c + b) as u64, n),
            forall|k: int|
                0 <= k < n - 1 ==> #[trigger] Self::select_spec((c + k + 1) as u64, n) == (
                Self::select_spec((c + k) as u64, n) + 1) % (n as int),
    {
        let ni = n as int;
        assert forall|a: int, b: int|
            0 <= a < b < n implies #[trigger] Self::select_spec((c + a) as u64, n)
            != #[trigger] Self::select_spec((c + b) as u64, n) by {
            let x = c + a;
            let d = b - a;
            lemma_add_mod_noop(x, d, ni);
            lemma_small_mod(d as nat, ni as nat);
            lemma_mod_division_less_than_divisor(x, ni);
            let e = x % ni;
            if e + d < ni {
                lemma_small_mod((e + d) as nat, ni as nat);
            } else {
                lemma_mod_sub_multiples_vanish(e + d, ni);
                lemma_small_mod((e + d - ni) as nat, ni as nat);
            }
        }
        assert forall|k: int|
            0 <= k < n - 1 implies #[trigger] Self::select_spec((c + k + 1) as u64, n) == (
        Self::select_spec((c + k) as u64, n) + 1) % ni by {
            let x = c + k;
            lemma_add_mod_noop(x, 1, ni);
            if ni == 1 {
                lemma_mod_division_less_than_divisor(x + 1, ni);
                lemma_mod_division_less_than_divisor(x % ni + 1, ni);
                lemma_mod_division_less_than_divisor(x, ni);
            } else {
                lemma_small_mod(1nat, ni as nat);
            }
        }
    }
}

/// The buffered whole-text response: every fragment followed by one line
/// break, concatenated in order.
pub open spec fn joined_response(frags: Seq<Seq<u8>>) -> Seq<u8>
    decreases frags.len(),
{
    if frags.len() == 0 {
        Seq::empty()
    } else {
        joined_response(frags.drop_last()) + frags.last() + seq![NL]
    }
}

/// Concatenates the fragments of a completed command into one buffered
/// response, each fragment followed by a line break.
pub fn assemble_response(frags: &Vec<Vec<u8>>) -> (r: Vec<u8>)
    ensures
        r@ == joined_response(frags@.map_values(|f: Vec<u8>| f@)),
{
    let ghost fm = frags@.map_values(|f: Vec<u8>| f@);
    let mut out: Vec<u8> = Vec::new();
    let n = frags.len();
    let mut i: usize = 0;
    proof {
        assert(fm.take(0) =~= Seq::<Seq<u8>>::empty());
    }
    while i < n
        invariant
            n == frags@.len(),
            fm == frags@.map_values(|f: Vec<u8>| f@),
            i <= n,
            out@ == joined_response(fm.take(i as int)),
        decreases n - i,
    {
        out.extend_from_slice(frags[i].as_slice());
        out.push(NL);
        proof {
            assert(fm.take(i + 1).drop_last() =~= fm.take(i as int));
            assert(fm.take(i + 1).last() == fm[i as int]);
            assert(out@ =~= joined_response(fm.take(i + 1)));
        }
        i += 1;
    }
    proof {
        assert(fm.take(n as int) =~= fm);
    }
    out
}

} // verus!
