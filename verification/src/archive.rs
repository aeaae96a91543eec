use vstd::prelude::*;
use vstd::arithmetic::div_mod::lemma_fundamental_div_mod_converse;
use vstd::arithmetic::mul::{lemma_mul_is_distributive_add_other_way, lemma_mul_nonnegative};

use crate::errors::AtmError;
use crate::path::{assign, assigned_path, hash_long_enough};
use crate::planner::PartitionGeometry;

verus! {

/// The writer's lifecycle: `Open` accepts further pushes, `Closed` is
/// terminal and forbids every further mutation.
#[derive(Clone, Copy, Debug, PartialEq, Eq, Structural)]
pub enum ArchiveState {
    Open,
    Closed,
}

/// One encoded sequence: its bytes and the content hash the external
/// encoder assigned to it.  The hash is the sole key used for path
/// assignment, so artifacts are content-addressed.
#[derive(Debug)]
pub struct Artifact {
    pub bytes: Vec<u8>,
    pub hash: String,
}

/// An artifact queued into a batch, together with its assigned path.
#[derive(Debug)]
pub struct BatchEntry {
    pub path: String,
    pub bytes: Vec<u8>,
    pub hash: String,
}

/// A flushed batch: an ordered group of entries destined for one physical
/// output container.  Immutable once handed out.
#[derive(Debug)]
pub struct Batch {
    pub entries: Vec<BatchEntry>,
}

/// The mathematical model of one batch entry.
pub struct EntryModel {
    pub path: Seq<char>,
    pub bytes: Seq<u8>,
    pub hash: Seq<char>,
}

/// The model of an entry.
pub open spec fn entry_model(e: BatchEntry) -> EntryModel {
    EntryModel { path: e.path@, bytes: e.bytes@, hash: e.hash@ }
}

/// The model of a run of entries.
pub open spec fn entries_model(s: Seq<BatchEntry>) -> Seq<EntryModel> {
    s.map_values(|e: BatchEntry| entry_model(e))
}

/// The model of a flushed batch.
pub open spec fn batch_model(b: Batch) -> Seq<EntryModel> {
    entries_model(b.entries@)
}

/// Total number of entries over a run of batches.
pub open spec fn total_len(batches: Seq<Seq<EntryModel>>) -> nat
    decreases batches.len(),
{
    if batches.len() == 0 {
        0
    } else {
        total_len(batches.drop_last()) + batches.last().len()
    }
}

/// The shape that a closed writer's batches have: every batch but the last
/// is exactly full, and the last—flushed by `finish`—holds between one and
/// `batch_size` entries.
pub open spec fn closed_shape(batches: Seq<Seq<EntryModel>>, batch_size: nat) -> bool {
    &&& forall|i: int|
        0 <= i < batches.len() - 1 ==> (#[trigger] batches[i]).len() == batch_size
    &&& batches.len() > 0 ==> 1 <= batches.last().len() <= batch_size
}

/// Groups a stream of artifacts into batches of at most `batch_size`
/// entries, assigns each artifact its partitioned path, and exposes the
/// explicit open/closed lifecycle.  A batch returned by `push` or `finish`
/// is full (or, for the final one, possibly short) and ready to be
/// persisted as one container by the caller; durability is only reached
/// once the caller has written it.
pub struct BatchedArchiveWriter {
    /// Root output path every assigned path starts with.
    pub root: String,
    /// Partition geometry used for path assignment.
    pub geometry: PartitionGeometry,
    /// Maximum number of entries per batch.
    pub batch_size: u32,
    /// Lifecycle state.
    pub state: ArchiveState,
    /// Entries accepted into the current, not yet flushed batch.
    pub current: Vec<BatchEntry>,
    /// History of the batches flushed so far, oldest first.
    pub flushed: Ghost<Seq<Seq<EntryModel>>>,
}

impl BatchedArchiveWriter {
    /// The batches flushed so far, oldest first.
    pub open spec fn batches(self) -> Seq<Seq<EntryModel>> {
        self.flushed@
    }

    /// The entries of the current, still-open batch.
    pub open spec fn pending(self) -> Seq<EntryModel> {
        entries_model(self.current@)
    }

    /// Total artifacts accepted since the writer was opened.
    pub open spec fn accepted(self) -> nat {
        total_len(self.batches()) + self.pending().len()
    }

    /// The writer's invariant: a positive batch bound, a current batch that
    /// never reaches the bound while open and is empty once closed, full
    /// flushed batches while open, and the closed shape afterwards.
    pub open spec fn wf(self) -> bool {
        &&& self.batch_size >= 1
        &&& (self.state is Open ==> self.current@.len() < self.batch_size)
        &&& (self.state is Closed ==> self.current@.len() == 0)
        &&& (self.state is Open ==> forall|i: int|
            0 <= i < self.batches().len() ==> (#[trigger] self.batches()[i]).len()
                == self.batch_size)
        &&& (self.state is Closed ==> closed_shape(self.batches(), self.batch_size as nat))
    }

    /// Opens a writer over `root` with the given geometry.  A zero batch
    /// bound is out of domain.
    pub fn new(root: &str, geometry: PartitionGeometry, batch_size: u32) -> (r: Result<
        BatchedArchiveWriter,
        AtmError,
    >)
        ensures
            match r {
                Ok(w) => batch_size >= 1 && w.wf() && w.state is Open && w.batches().len() == 0
                    && w.pending().len() == 0 && w.accepted() == 0 && w.root@ == root@
                    && w.geometry == geometry && w.batch_size == batch_size,
                Err(e) => e == AtmError::InvalidConfiguration && batch_size == 0,
            },
    {
        if batch_size == 0 {
            return Err(AtmError::InvalidConfiguration);
        }
        let w = BatchedArchiveWriter {
            root: root.to_owned(),
            geometry,
            batch_size,
            state: ArchiveState::Open,
            current: Vec::new(),
            flushed: Ghost(Seq::empty()),
        };
        Ok(w)
    }

    /// Accepts one artifact while open: assigns its path and queues it into
    /// the current batch.  Exactly when the batch thereby reaches
    /// `batch_size` entries, the full batch is handed back for the caller
    /// to persist and a fresh batch is started.  Pushing to a closed writer
    /// always fails with `InvalidState`; a hash too short for the geometry
    /// fails with `InvalidConfiguration` and changes nothing.
    pub fn push(&mut self, artifact: Artifact) -> (r: Result<Option<Batch>, AtmError>)
        requires
            old(self).wf(),
        ensures
            final(self).wf(),
            final(self).root@ == old(self).root@,
            final(self).geometry == old(self).geometry,
            final(self).batch_size == old(self).batch_size,
            r is Err <==> old(self).state is Closed || !hash_long_enough(
                artifact.hash@,
                old(self).geometry.partition_size as nat,
                old(self).geometry.partition_depth as nat,
            ),
            match r {
                Err(e) => {
                    &&& *final(self) == *old(self)
                    &&& (e == AtmError::InvalidState <==> old(self).state is Closed)
                    &&& (e == AtmError::InvalidConfiguration <==> old(self).state is Open
                        && !hash_long_enough(
                        artifact.hash@,
                        old(self).geometry.partition_size as nat,
                        old(self).geometry.partition_depth as nat,
                    ))
                },
                Ok(out) => {
                    let e = EntryModel {
                        path: assigned_path(
                            old(self).root@,
                            artifact.hash@,
                            old(self).geometry.partition_size as nat,
                            old(self).geometry.partition_depth as nat,
                        ),
                        bytes: artifact.bytes@,
                        hash: artifact.hash@,
                    };
                    &&& old(self).state is Open
                    &&& hash_long_enough(
                        artifact.hash@,
                        old(self).geometry.partition_size as nat,
                        old(self).geometry.partition_depth as nat,
                    )
                    &&& final(self).state is Open
                    &&& final(self).accepted() == old(self).accepted() + 1
                    &&& if old(self).pending().len() + 1 == old(self).batch_size {
                        &&& out is Some
                        &&& batch_model(out->0) == old(self).pending().push(e)
                        &&& batch_model(out->0).len() == old(self).batch_size
                        &&& final(self).batches() == old(self).batches().push(
                            old(self).pending().push(e),
                        )
                        &&& final(self).pending().len() == 0
                    } else {
                        &&& out is None
                        &&& final(self).pending() == old(self).pending().push(e)
                        &&& final(self).batches() == old(self).batches()
                    }
                },
            },
    {
        match self.state {
            ArchiveState::Closed => {
                return Err(AtmError::InvalidState);
            },
            ArchiveState::Open => {},
        }
        let path = match assign(artifact.hash.as_str(), &self.geometry, self.root.as_str()) {
            Ok(p) => p,
            Err(e) => {
                return Err(e);
            },
        };
        let ghost m = EntryModel { path: path@, bytes: artifact.bytes@, hash: artifact.hash@ };
        let entry = BatchEntry { path, bytes: artifact.bytes, hash: artifact.hash };
        let ghost old_pending = self.pending();
        self.current.push(entry);
        proof {
            assert(self.pending() =~= old_pending.push(m));
        }
        if self.current.len() == self.batch_size as usize {
            let mut taken: Vec<BatchEntry> = Vec::new();
            core::mem::swap(&mut self.current, &mut taken);
            let ghost flushed_model = entries_model(taken@);
            proof {
                let old_flushed = self.flushed@;
                lemma_total_len_push(old_flushed, flushed_model);
                self.flushed@ = old_flushed.push(flushed_model);
            }
            proof {
                assert(self.pending() =~= Seq::<EntryModel>::empty());
                assert(flushed_model.len() == self.batch_size);
                assert forall|i: int| 0 <= i < self.batches().len() implies (#[trigger] self.batches()[
                    i]).len() == self.batch_size by {
                    if i < self.batches().len() - 1 {
                        assert(self.batches()[i] == old(self).batches()[i]);
                    } else {
                        assert(self.batches()[i] == flushed_model);
                    }
                }
            }
            Ok(Some(Batch { entries: taken }))
        } else {
            Ok(None)
        }
    }

    /// Closes the writer: flushes the current batch where one is pending —
    /// a short final batch is expected and valid — and hands it back for
    /// the caller to persist.  The transition is terminal: a second
    /// `finish`, like any later `push`, fails with `InvalidState` and has
    /// no further effect.
    pub fn finish(&mut self) -> (r: Result<Option<Batch>, AtmError>)
        requires
            old(self).wf(),
        ensures
            final(self).wf(),
            final(self).root@ == old(self).root@,
            final(self).geometry == old(self).geometry,
            final(self).batch_size == old(self).batch_size,
            match r {
                Err(e) => {
                    &&& *final(self) == *old(self)
                    &&& e == AtmError::InvalidState
                    &&& old(self).state is Closed
                },
                Ok(out) => {
                    &&& old(self).state is Open
                    &&& final(self).state is Closed
                    &&& final(self).accepted() == old(self).accepted()
                    &&& final(self).pending().len() == 0
                    &&& if old(self).pending().len() == 0 {
                        out is None && final(self).batches() == old(self).batches()
                    } else {
                        &&& out is Some
                        &&& batch_model(out->0) == old(self).pending()
                        &&& final(self).batches() == old(self).batches().push(old(self).pending())
                    }
                },
            },
    {
        match self.state {
            ArchiveState::Closed => {
                return Err(AtmError::InvalidState);
            },
            ArchiveState::Open => {},
        }
        self.state = ArchiveState::Closed;
        if self.current.len() == 0 {
            proof {
                assert(self.pending() =~= Seq::<EntryModel>::empty());
                assert(closed_shape(self.batches(), self.batch_size as nat)) by {
                    let bs = old(self).batches();
                    assert(self.batches() == bs);
                    if bs.len() > 0 {
                        assert(bs[bs.len() - 1].len() == old(self).batch_size);
                    }
                }
            }
            return Ok(None);
        }
        let mut taken: Vec<BatchEntry> = Vec::new();
        core::mem::swap(&mut self.current, &mut taken);
        let ghost flushed_model = entries_model(taken@);
        proof {
            let old_flushed = self.flushed@;
            lemma_total_len_push(old_flushed, flushed_model);
            self.flushed@ = old_flushed.push(flushed_model);
        }
        proof {
            assert(self.pending() =~= Seq::<EntryModel>::empty());
            assert(closed_shape(self.batches(), self.batch_size as nat)) by {
                let bs = self.batches();
                assert forall|i: int| 0 <= i < bs.len() - 1 implies (#[trigger] bs[i]).len()
                    == self.batch_size by {
                    assert(bs[i] == old(self).batches()[i]);
                }
                assert(bs.last() == flushed_model);
                assert(1 <= flushed_model.len() <= self.batch_size);
            }
        }
        Ok(Some(Batch { entries: taken }))
    }
}

/// Appending a batch adds exactly its length to the total.
proof fn lemma_total_len_push(batches: Seq<Seq<EntryModel>>, b: Seq<EntryModel>)
    ensures
        total_len(batches.push(b)) == total_len(batches) + b.len(),
{
    assert(batches.push(b).drop_last() =~= batches);
    assert(batches.push(b).last() =~= b);
}

/// Under the closed shape, the total is the full batches plus the final
/// one.
proof fn lemma_total_len_closed(batches: Seq<Seq<EntryModel>>, batch_size: nat)
    requires
        batch_size >= 1,
        closed_shape(batches, batch_size),
    ensures
        batches.len() > 0 ==> total_len(batches) == (batches.len() - 1) * batch_size
            + batches.last().len(),
    decreases batches.len(),
{
    if batches.len() > 0 {
        let dl = batches.drop_last();
        assert(total_len(batches) == total_len(dl) + batches.last().len());
        if dl.len() == 0 {
            assert(total_len(dl) == 0);
            assert(total_len(batches) == batches.last().len());
            assert((batches.len() - 1) * batch_size == 0) by (nonlinear_arith)
                requires
                    batches.len() == 1,
            ;
        } else {
            assert(closed_shape(dl, batch_size)) by {
                assert(forall|i: int| 0 <= i < dl.len() ==> dl[i] =~= batches[i]);
                assert(dl.last() =~= batches[batches.len() - 2]);
            }
            lemma_total_len_closed(dl, batch_size);
            assert(dl.last().len() == batch_size);
            assert((dl.len() - 1) * batch_size + batch_size == dl.len() * batch_size) by {
                lemma_mul_is_distributive_add_other_way(batch_size as int, dl.len() - 1, 1);
            }
        }
    }
}

/// The batch count a closed writer has flushed: the accepted total divided
/// by the batch bound, rounded up; and the final batch holds the remainder
/// of that division — a full batch when the total divides evenly.  In
/// particular, a writer that accepted `N` artifacts flushed exactly
/// `ceil(N / batch_size)` batches.
pub proof fn lemma_batch_count_after_finish(w: BatchedArchiveWriter)
    requires
        w.wf(),
        w.state is Closed,
    ensures
        w.accepted() == 0 ==> w.batches().len() == 0,
        w.accepted() > 0 ==> w.batches().len() == (w.accepted() - 1) / (w.batch_size as int) + 1,
        w.accepted() > 0 ==> w.batches().last().len() == (if w.accepted() % (
        w.batch_size as nat) == 0 {
            w.batch_size as nat
        } else {
            w.accepted() % (w.batch_size as nat)
        }),
{
    let b = w.batch_size as int;
    let k = w.batches().len() as int;
    lemma_total_len_closed(w.batches(), w.batch_size as nat);
    if k == 0 {
    } else {
        let r = w.batches().last().len() as int;
        let total = w.accepted() as int;
        assert(total == (k - 1) * b + r);
        lemma_mul_nonnegative(k - 1, b);
        assert(total >= r >= 1);
        lemma_fundamental_div_mod_converse(total - 1, b, k - 1, r - 1);
        assert((total - 1) / b == k - 1);
        if r == b {
            lemma_mul_is_distributive_add_other_way(b, k - 1, 1);
            assert(total == k * b);
            lemma_fundamental_div_mod_converse(total, b, k, 0);
        } else {
            lemma_fundamental_div_mod_converse(total, b, k - 1, r);
        }
    }
}

} // verus!
