//! Backend negotiation for spawning the child engine: GPU first, CPU as the
//! one and only fallback, and the exact argument list the child is owed.

use vstd::prelude::*;
use vstd::string::StringExecFns;

verus! {

/// Compute backend handed to the child on its command line.
#[derive(Clone, Copy, Debug, PartialEq, Eq, Structural)]
pub enum Backend {
    Gpu,
    Cpu,
}

/// Which backend the plan tries after a given number of failed attempts:
/// GPU first, then CPU once, then nothing — the spawn has failed for good.
pub open spec fn attempt_for(failed: int) -> Option<Backend> {
    if failed == 0 {
        Some(Backend::Gpu)
    } else if failed == 1 {
        Some(Backend::Cpu)
    } else {
        None
    }
}

/// Backend fallback, whole plan: the GPU backend is tried first; after one
/// failure the CPU backend is tried exactly once; after two failures no
/// attempt is left and the spawn is given up.
pub proof fn lemma_backend_fallback(k: int)
    ensures
        attempt_for(0) == Some(Backend::Gpu),
        attempt_for(1) == Some(Backend::Cpu),
        k >= 2 ==> attempt_for(k) is None,
{
}

/// Backend fallback: the GPU backend is tried first; when it fails the CPU
/// backend is retried exactly once; only when that fails too is the spawn
/// given up.
pub struct SpawnPlan {
    /// How many spawn attempts have failed so far.
    pub failed: usize,
}

impl SpawnPlan {
    /// A fresh plan: nothing attempted yet.
    pub fn new() -> (r: Self)
        ensures
            r.failed == 0,
            r.next_backend_spec() == Some(Backend::Gpu),
    {
        SpawnPlan { failed: 0 }
    }

    /// The backend the next attempt must use, if one is left.
    pub open spec fn next_backend_spec(self) -> Option<Backend> {
        attempt_for(self.failed as int)
    }

    /// Which backend to try next: GPU on the first attempt, CPU on the
    /// second, none after two failures.
    pub fn next_backend(&self) -> (r: Option<Backend>)
        ensures
            r == self.next_backend_spec(),
    {
        if self.failed == 0 {
            Some(Backend::Gpu)
        } else if self.failed == 1 {
            Some(Backend::Cpu)
        } else {
            None
        }
    }

    /// Records one failed spawn attempt.
    pub fn record_failure(&mut self)
        requires
            old(self).failed < usize::MAX,
        ensures
            final(self).failed == old(self).failed + 1,
    {
        self.failed = self.failed + 1;
    }
}

/// The name the child expects for a backend: `gpu` or `cpu`.
pub fn backend_name(b: Backend) -> (r: String)
    ensures
        b is Gpu ==> r@ == "gpu"@,
        b is Cpu ==> r@ == "cpu"@,
{
    match b {
        Backend::Gpu => String::from_str("gpu"),
        Backend::Cpu => String::from_str("cpu"),
    }
}

/// The exact argument list the child is owed:
/// `run <modelId> --backend <gpu|cpu>`.
pub fn run_args(model: &str, backend: Backend) -> (r: Vec<String>)
    ensures
        r@.len() == 4,
        r@[0]@ == "run"@,
        r@[1]@ == model@,
        r@[2]@ == "--backend"@,
        backend is Gpu ==> r@[3]@ == "gpu"@,
        backend is Cpu ==> r@[3]@ == "cpu"@,
{
    let mut args: Vec<String> = Vec::new();
    args.push(String::from_str("run"));
    args.push(String::from_str(model));
    args.push(String::from_str("--backend"));
    args.push(backend_name(backend));
    args
}

} // verus!
