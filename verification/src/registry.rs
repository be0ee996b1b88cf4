//! Registry of pipeline adapters: which adapter type ids are available for
//! which pipeline stage.

use vstd::prelude::*;
use crate::text::str_eq;

verus! {

/// A stage of the diarization pipeline.
#[derive(Clone, Copy, Debug, PartialEq, Eq, Structural)]
pub enum AdapterStage {
    Vad,
    Segmenter,
    Embedder,
}

/// A rejected registration.
#[derive(Clone, Debug, PartialEq, Eq)]
pub enum AdapterError {
    /// The stage already has an adapter with this id.
    AlreadyRegistered { stage: AdapterStage, id: String },
}

/// The adapters registered so far, per stage, in registration order.
#[derive(Clone, Debug)]
pub struct AdapterRegistry {
    entries: Vec<(AdapterStage, String)>,
}

/// Whether `(stage, id)` occurs in `entries`.
pub open spec fn registered(entries: Seq<(AdapterStage, Seq<char>)>, stage: AdapterStage, id: Seq<char>) -> bool {
    exists|i: int| 0 <= i < entries.len() && #[trigger] entries[i] == (stage, id)
}

impl AdapterRegistry {
    /// The registered `(stage, id)` pairs, in registration order.
    pub closed spec fn entries(&self) -> Seq<(AdapterStage, Seq<char>)> {
        self.entries@.map_values(|e: (AdapterStage, String)| (e.0, e.1@))
    }

    /// Whether `id` is registered for `stage`.
    pub open spec fn has(&self, stage: AdapterStage, id: Seq<char>) -> bool {
        registered(self.entries(), stage, id)
    }

    /// An empty registry.
    pub fn new() -> (r: Self)
        ensures
            r.entries() == Seq::<(AdapterStage, Seq<char>)>::empty(),
    {
        let r = AdapterRegistry { entries: Vec::new() };
        assert(r.entries() =~= Seq::<(AdapterStage, Seq<char>)>::empty());
        r
    }

    /// Whether `id` is registered for `stage`.
    pub fn contains(&self, stage: AdapterStage, id: &str) -> (b: bool)
        ensures
            b == self.has(stage, id@),
    {
        let mut i: usize = 0;
        while i < self.entries.len()
            invariant
                i <= self.entries.len(),
                forall|q: int| 0 <= q < i ==> #[trigger] self.entries()[q] != (stage, id@),
            decreases self.entries.len() - i,
        {
            let e = &self.entries[i];
            if e.0 == stage && str_eq(e.1.as_str(), id) {
                assert(self.entries()[i as int] == (stage, id@));
                return true;
            }
            i += 1;
        }
        false
    }

    /// Register `id` for `stage`; an id already registered for that stage is
    /// rejected and the registry left as it was.
    pub fn register(&mut self, stage: AdapterStage, id: &str) -> (r: Result<(), AdapterError>)
        ensures
            old(self).has(stage, id@) ==> final(self).entries() == old(self).entries() && (r matches Err(
                e,
            ) && e matches AdapterError::AlreadyRegistered { stage: s, id: i } && s == stage && i@
                == id@),
            !old(self).has(stage, id@) ==> r is Ok && final(self).entries() == old(self).entries().push(
                (stage, id@),
            ),
    {
        if self.contains(stage, id) {
            return Err(AdapterError::AlreadyRegistered { stage, id: id.to_owned() });
        }
        let ghost before = self.entries();
        self.entries.push((stage, id.to_owned()));
        assert(self.entries() =~= before.push((stage, id@)));
        Ok(())
    }
}

/// Registering an id makes it present, and registering the same id for the
/// same stage again is rejected.
pub proof fn lemma_register_then_duplicate(
    before: Seq<(AdapterStage, Seq<char>)>,
    stage: AdapterStage,
    id: Seq<char>,
)
    ensures
        registered(before.push((stage, id)), stage, id),
{
    assert(before.push((stage, id))[before.len() as int] == (stage, id));
}

} // verus!
