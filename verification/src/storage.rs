//! In-memory stores of the privacy schemes: kernels, shielded notes and spent tags.
use vstd::prelude::*;
use crate::bytes::bytes_equal;
use crate::mw_cutthrough::MwKernel;

verus! {

/// Whether a list of tags holds a tag.
pub open spec fn holds_tag(tags: Seq<([u8; 32], u64)>, tag: Seq<u8>) -> bool {
    exists|i: int| 0 <= i < tags.len() && (#[trigger] tags[i]).0@ == tag
}

fn find_tag(tags: &Vec<([u8; 32], u64)>, tag: &[u8; 32]) -> (r: bool)
    ensures
        r == holds_tag(tags@, tag@),
{
    let mut i: usize = 0;
    while i < tags.len()
        invariant
            i <= tags@.len(),
            forall|j: int| 0 <= j < i ==> (#[trigger] tags@[j]).0@ != tag@,
        decreases tags@.len() - i,
    {
        if bytes_equal(&tags[i].0, tag) {
            assert(tags@[i as int].0@ == tag@);
            return true;
        }
        i = i + 1;
    }
    false
}

/// The kernels that were kept.
pub struct KernelStore {
    /// The kernels, in the order in which they came.
    pub kernels: Vec<MwKernel>,
}

impl KernelStore {
    /// An empty store.
    pub fn new() -> (r: KernelStore)
        ensures
            r.kernels@.len() == 0,
    {
        let kernels: Vec<MwKernel> = Vec::new();
        KernelStore { kernels }
    }

    /// Adds a kernel.
    pub fn append(&mut self, kernel: MwKernel)
        ensures
            final(self).kernels@ == old(self).kernels@.push(kernel),
    {
        self.kernels.push(kernel);
    }

    /// The number of kernels.
    pub fn len(&self) -> (r: usize)
        ensures
            r == self.kernels@.len(),
    {
        self.kernels.len()
    }
}

/// A shielded note in the pool.
#[derive(Clone, Copy, Debug, PartialEq, Eq)]
pub struct NoteCommitmentEntry {
    /// The commitment.
    pub commitment: [u8; 32],
    /// The height of its block.
    pub height: u64,
    /// The position of its transaction.
    pub tx_index: u32,
    /// Its position in the pool.
    pub position: u64,
}

/// The shielded pool: the notes, and the nullifiers of those that were spent.
pub struct ShieldedStore {
    /// The notes, in the order in which they came.
    pub notes: Vec<NoteCommitmentEntry>,
    /// The nullifiers that were spent, with the height.
    pub nullifiers: Vec<([u8; 32], u64)>,
}

impl ShieldedStore {
    /// An empty pool.
    pub fn new() -> (r: ShieldedStore)
        ensures
            r.notes@.len() == 0,
            r.nullifiers@.len() == 0,
    {
        let notes: Vec<NoteCommitmentEntry> = Vec::new();
        let nullifiers: Vec<([u8; 32], u64)> = Vec::new();
        ShieldedStore { notes, nullifiers }
    }

    /// Adds a note at the next position, which comes out.
    pub fn append_commitment(&mut self, entry: NoteCommitmentEntry) -> (r: u64)
        ensures
            r == old(self).notes@.len(),
            final(self).notes@ == old(self).notes@.push(
                (NoteCommitmentEntry { position: r, ..entry }),
            ),
            final(self).nullifiers@ == old(self).nullifiers@,
    {
        let position: u64 = self.notes.len() as u64;
        self.notes.push(
            NoteCommitmentEntry {
                commitment: entry.commitment,
                height: entry.height,
                tx_index: entry.tx_index,
                position,
            },
        );
        position
    }

    /// Whether a nullifier was spent.
    pub fn is_nullifier_spent(&self, nullifier: &[u8; 32]) -> (r: bool)
        ensures
            r == holds_tag(self.nullifiers@, nullifier@),
    {
        find_tag(&self.nullifiers, nullifier)
    }

    /// Records that a nullifier was spent.
    pub fn mark_nullifier_spent(&mut self, nullifier: [u8; 32], height: u64)
        ensures
            final(self).nullifiers@ == old(self).nullifiers@.push((nullifier, height)),
            final(self).notes@ == old(self).notes@,
    {
        self.nullifiers.push((nullifier, height));
    }
}

/// The serial tags of the shielded coins that were spent.
pub struct SparkStore {
    /// The tags, with the height.
    pub serials: Vec<([u8; 32], u64)>,
}

impl SparkStore {
    /// An empty store.
    pub fn new() -> (r: SparkStore)
        ensures
            r.serials@.len() == 0,
    {
        let serials: Vec<([u8; 32], u64)> = Vec::new();
        SparkStore { serials }
    }

    /// Whether a tag was spent.
    pub fn is_serial_spent(&self, tag: &[u8; 32]) -> (r: bool)
        ensures
            r == holds_tag(self.serials@, tag@),
    {
        find_tag(&self.serials, tag)
    }

    /// Records that a tag was spent.
    pub fn mark_serial_spent(&mut self, tag: [u8; 32], height: u64)
        ensures
            final(self).serials@ == old(self).serials@.push((tag, height)),
    {
        self.serials.push((tag, height));
    }
}

/// How an output may be recovered after its owner was inactive.
#[derive(Clone, Copy, Debug, PartialEq, Eq)]
pub struct RecoveryMeta {
    /// The index of the output.
    pub output_index: u32,
    /// The address that may recover it.
    pub recovery_address: [u8; 32],
    /// The number of blocks of inactivity.
    pub timeout_blocks: u64,
}

impl RecoveryMeta {
    /// Whether enough blocks have passed since the output was made.
    pub open spec fn eligible(self, creation_height: u64, current_height: u64) -> bool {
        if current_height >= creation_height {
            current_height - creation_height >= self.timeout_blocks
        } else {
            self.timeout_blocks == 0
        }
    }

    /// Whether enough blocks have passed since the output was made.
    pub fn is_recovery_eligible(&self, creation_height: u64, current_height: u64) -> (r: bool)
        ensures
            r == self.eligible(creation_height, current_height),
    {
        current_height.saturating_sub(creation_height) >= self.timeout_blocks
    }
}

/// An output may be recovered exactly from the height of its making plus the timeout on, and
/// at any height without a timeout; once it may be, it may be from then on.
pub proof fn law_recovery_waits_for_the_timeout(m: RecoveryMeta, made: u64, now: u64, later: u64)
    requires
        now <= later,
    ensures
        m.eligible(made, now) <==> (m.timeout_blocks == 0 || now >= made + m.timeout_blocks),
        m.eligible(made, now) ==> m.eligible(made, later),
{
}

} // verus!
