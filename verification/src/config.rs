//! The configuration layer: descriptors for the buffer stages, their
//! validity rules, and the errors a build can report.

use vstd::prelude::*;
use crate::WhenFull;
use crate::topology::{BufferTopology, TopologyBuilder};

verus! {

/// The `max_events` a memory stage gets when the configuration names none.
pub fn memory_buffer_default_max_events() -> (r: usize)
    ensures
        r == 500,
{
    500
}

/// A specific type of buffer stage.
#[derive(Clone, Copy, Debug, PartialEq, Eq, Structural)]
pub enum BufferType {
    /// A stage backed by an in-memory queue bounded by a number of events.
    Memory { max_events: usize, when_full: WhenFull },
    /// A stage backed by an on-disk ordered key-value log, bounded by bytes.
    DiskV1 { max_size: u64, when_full: WhenFull },
    /// A stage backed by an on-disk segmented log, bounded by bytes.
    DiskV2 { max_size: u64, when_full: WhenFull },
}

impl BufferType {
    /// A descriptor is valid when its sizing watermark is positive.
    pub open spec fn valid(self) -> bool {
        match self {
            BufferType::Memory { max_events, .. } => max_events >= 1,
            BufferType::DiskV1 { max_size, .. } => max_size >= 1,
            BufferType::DiskV2 { max_size, .. } => max_size >= 1,
        }
    }

    /// The stage's `when_full` policy.
    pub open spec fn spec_policy(self) -> WhenFull {
        match self {
            BufferType::Memory { when_full, .. } => when_full,
            BufferType::DiskV1 { when_full, .. } => when_full,
            BufferType::DiskV2 { when_full, .. } => when_full,
        }
    }

    /// Whether the descriptor names a disk-backed stage.
    pub open spec fn is_disk(self) -> bool {
        self is DiskV1 || self is DiskV2
    }
}

impl BufferType {
    /// Adds this buffer type as a stage to an existing [`TopologyBuilder`].
    ///
    /// The watermark must be positive, and a disk-backed stage needs a
    /// `data_dir` under which the caller's storage layer keeps its files,
    /// named by `id`; the stage itself carries no path.  On an error the
    /// builder is left as it was.
    pub fn add_to_builder(
        &self,
        builder: &mut TopologyBuilder,
        data_dir: Option<String>,
        id: String,
    ) -> (r: Result<(), BufferBuildError>)
        ensures
            r == Ok::<(), BufferBuildError>(()) <==> self.valid() && (self.is_disk()
                ==> data_dir is Some),
            r is Ok ==> final(builder).descriptors() == old(builder).descriptors().push(*self),
            r is Err ==> final(builder).descriptors() == old(builder).descriptors(),
            r == Err::<(), BufferBuildError>(BufferBuildError::RequiresDataDir) <==> self.is_disk()
                && data_dir is None,
            r == Err::<(), BufferBuildError>(BufferBuildError::InvalidMaxEvents) <==> !self.valid()
                && self is Memory,
            r == Err::<(), BufferBuildError>(BufferBuildError::InvalidMaxSize) <==> !self.valid()
                && self.is_disk() && data_dir is Some,
    {
        match self {
            BufferType::Memory { max_events, .. } => {
                if *max_events == 0 {
                    return Err(BufferBuildError::InvalidMaxEvents);
                }
            },
            BufferType::DiskV1 { max_size, .. } => {
                if data_dir.is_none() {
                    return Err(BufferBuildError::RequiresDataDir);
                }
                if *max_size == 0 {
                    return Err(BufferBuildError::InvalidMaxSize);
                }
            },
            BufferType::DiskV2 { max_size, .. } => {
                if data_dir.is_none() {
                    return Err(BufferBuildError::RequiresDataDir);
                }
                if *max_size == 0 {
                    return Err(BufferBuildError::InvalidMaxSize);
                }
            },
        }
        builder.stage(*self);
        Ok(())
    }
}

/// Why a topology cannot be assembled from a stage list.
#[derive(Clone, Copy, Debug, PartialEq, Eq, Structural)]
pub enum TopologyError {
    /// The stage list is empty: there is nothing to build.
    EmptyTopology,
    /// Two stages of the same disk variant would contend for the same files.
    DuplicateDiskStage,
}

/// Why a configured buffer cannot be built.
#[derive(Clone, Copy, Debug, PartialEq, Eq, Structural)]
pub enum BufferBuildError {
    /// A disk stage is configured and no `data_dir` was provided.
    RequiresDataDir,
    /// The stage list itself cannot form a topology.
    FailedToBuildTopology { source: TopologyError },
    /// A memory stage was configured with zero `max_events`.
    InvalidMaxEvents,
    /// A disk stage was configured with zero `max_size`.
    InvalidMaxSize,
}

/// The rendering of each build error.
pub open spec fn build_error_message(e: BufferBuildError) -> Seq<char> {
    match e {
        BufferBuildError::RequiresDataDir => "the configured buffer type requires `data_dir` be specified"@,
        BufferBuildError::FailedToBuildTopology { source } => "error occurred when building buffer: "@
            + (match source {
            TopologyError::EmptyTopology => "buffer topology cannot be empty"@,
            TopologyError::DuplicateDiskStage => "buffer topology cannot use the same disk buffer type twice"@,
        }),
        BufferBuildError::InvalidMaxEvents => "`max_events` must be greater than zero"@,
        BufferBuildError::InvalidMaxSize => "`max_size` must be greater than zero"@,
    }
}

impl BufferBuildError {
    /// The error rendered for people, as the build surface reports it.
    pub fn message(&self) -> (r: String)
        ensures
            r@ == build_error_message(*self),
    {
        match self {
            BufferBuildError::RequiresDataDir => String::from_str(
                "the configured buffer type requires `data_dir` be specified",
            ),
            BufferBuildError::FailedToBuildTopology { source } => {
                let base = String::from_str("error occurred when building buffer: ");
                match source {
                    TopologyError::EmptyTopology => base.concat("buffer topology cannot be empty"),
                    TopologyError::DuplicateDiskStage => base.concat(
                        "buffer topology cannot use the same disk buffer type twice",
                    ),
                }
            },
            BufferBuildError::InvalidMaxEvents => String::from_str(
                "`max_events` must be greater than zero",
            ),
            BufferBuildError::InvalidMaxSize => String::from_str(
                "`max_size` must be greater than zero",
            ),
        }
    }
}

/// A buffer configuration: the ordered, non-empty stage list that forms a
/// buffer topology.  Input items are subject to each stage's `when_full`
/// behavior once that stage reaches its configured limit.
#[derive(Clone, Debug, PartialEq)]
pub struct BufferConfig {
    pub stages: Vec<BufferType>,
}

impl Default for BufferConfig {
    /// One memory stage with the default watermark and policy.
    fn default() -> (r: Self)
        ensures
            r.stages@ =~= seq![
                BufferType::Memory { max_events: 500, when_full: WhenFull::Block },
            ],
    {
        let mut stages: Vec<BufferType> = Vec::new();
        stages.push(BufferType::Memory { max_events: 500, when_full: WhenFull::Block });
        BufferConfig { stages }
    }
}

impl BufferConfig {
    /// Gets all of the configured stages for this buffer.
    pub fn stages(&self) -> (r: &Vec<BufferType>)
        ensures
            r@ == self.stages@,
    {
        &self.stages
    }

    /// Every stage descriptor carries a positive watermark.
    pub open spec fn all_valid(self) -> bool {
        forall|i: int| 0 <= i < self.stages@.len() ==> (#[trigger] self.stages@[i]).valid()
    }

    /// Whether any stage is disk-backed and so needs a `data_dir`.
    pub open spec fn any_disk(self) -> bool {
        exists|i: int| 0 <= i < self.stages@.len() && (#[trigger] self.stages@[i]).is_disk()
    }

    /// Builds the buffer topology this configuration describes: every stage
    /// validated and instantiated empty, chained in order, with a terminal
    /// `overflow` degraded to `block`.  The caller pushes through the
    /// topology's send side, pops through its receive side, and releases
    /// consumed events through its ack side.  Disk stages keep their files
    /// under `data_dir`, named by `buffer_id`; opening them is the storage
    /// layer's work.
    pub fn build(&self, data_dir: Option<String>, buffer_id: String) -> (r: Result<
        BufferTopology,
        BufferBuildError,
    >)
        ensures
            r is Ok <==> {
                &&& self.stages@.len() > 0
                &&& self.all_valid()
                &&& !TopologyBuilder::has_duplicate_disk(self.stages@)
                &&& (self.any_disk() ==> data_dir is Some)
            },
            r matches Ok(t) ==> {
                &&& t.wf()
                &&& t.counters_ok()
                &&& t.stages_view().len() == self.stages@.len()
                &&& t.origins_view() == Seq::<usize>::empty()
                &&& forall|i: int| 0 <= i < t.stages_view().len()
                    ==> TopologyBuilder::stage_matches(
                    #[trigger] t.stages_view()[i],
                    TopologyBuilder::degraded(self.stages@)[i],
                )
            },
    {
        let mut builder = TopologyBuilder::default();
        let n = self.stages.len();
        let mut i: usize = 0;
        while i < n
            invariant
                n == self.stages@.len(),
                i <= n,
                builder.descriptors() =~= self.stages@.take(i as int),
                forall|k: int| 0 <= k < i ==> (#[trigger] self.stages@[k]).valid(),
                forall|k: int| 0 <= k < i ==> ((#[trigger] self.stages@[k]).is_disk()
                    ==> data_dir is Some),
            decreases n - i,
        {
            let dir = match &data_dir {
                Some(s) => Some(s.clone()),
                None => None,
            };
            let r = self.stages[i].add_to_builder(&mut builder, dir, buffer_id.clone());
            match r {
                Ok(_) => {},
                Err(e) => {
                    return Err(e);
                },
            }
            proof {
                assert(builder.descriptors() =~= self.stages@.take(i as int + 1));
            }
            i = i + 1;
        }
        proof {
            assert(builder.descriptors() =~= self.stages@);
        }
        match builder.build() {
            Ok(t) => Ok(t),
            Err(source) => Err(BufferBuildError::FailedToBuildTopology { source }),
        }
    }
}

} // verus!
