//! How the levels below the first are laid out.
use vstd::prelude::*;

verus! {

/// The options of leveled compaction.
#[derive(Debug, Clone, Copy, PartialEq, Eq)]
pub struct LeveledCompactionOptions {
    pub level_size_multiplier: usize,
    pub level0_file_num_compaction_trigger: usize,
    pub max_levels: usize,
    pub base_level_size_mb: usize,
}

/// The options of simple leveled compaction.
#[derive(Debug, Clone, Copy, PartialEq, Eq)]
pub struct SimpleLeveledCompactionOptions {
    pub size_ratio_percent: usize,
    pub level0_file_num_compaction_trigger: usize,
    pub max_levels: usize,
}

/// The options of tiered compaction.
#[derive(Debug, Clone, Copy, PartialEq, Eq)]
pub struct TieredCompactionOptions {
    pub num_tiers: usize,
    pub max_size_amplification_percent: usize,
    pub size_ratio: usize,
    pub min_merge_width: usize,
    pub max_merge_width: Option<usize>,
}

/// Which compaction is used.
#[derive(Debug, Clone, Copy, PartialEq, Eq)]
pub enum CompactionOptions {
    /// Leveled compaction.
    Leveled(LeveledCompactionOptions),
    /// Tiered compaction.
    Tiered(TieredCompactionOptions),
    /// Simple leveled compaction.
    Simple(SimpleLeveledCompactionOptions),
    /// No compaction: always flush to L0.
    NoCompaction,
}

/// Leveled compaction.
pub struct LeveledCompactionController {
    options: LeveledCompactionOptions,
}

impl LeveledCompactionController {
    /// The options with which the controller was created.
    pub closed spec fn options(&self) -> LeveledCompactionOptions {
        self.options
    }

    pub fn new(options: LeveledCompactionOptions) -> (c: Self)
        ensures
            c.options() == options,
    {
        LeveledCompactionController { options }
    }
}

/// Tiered compaction.
pub struct TieredCompactionController {
    options: TieredCompactionOptions,
}

impl TieredCompactionController {
    /// The options with which the controller was created.
    pub closed spec fn options(&self) -> TieredCompactionOptions {
        self.options
    }

    pub fn new(options: TieredCompactionOptions) -> (c: Self)
        ensures
            c.options() == options,
    {
        TieredCompactionController { options }
    }
}

/// Simple leveled compaction.
pub struct SimpleLeveledCompactionController {
    options: SimpleLeveledCompactionOptions,
}

impl SimpleLeveledCompactionController {
    /// The options with which the controller was created.
    pub closed spec fn options(&self) -> SimpleLeveledCompactionOptions {
        self.options
    }

    pub fn new(options: SimpleLeveledCompactionOptions) -> (c: Self)
        ensures
            c.options() == options,
    {
        SimpleLeveledCompactionController { options }
    }
}

/// What runs the compaction.
pub enum CompactionController {
    Leveled(LeveledCompactionController),
    Tiered(TieredCompactionController),
    Simple(SimpleLeveledCompactionController),
    NoCompaction,
}

impl CompactionController {
    /// The options with which the controller was created.
    pub open spec fn options(&self) -> CompactionOptions {
        match self {
            CompactionController::Leveled(c) => CompactionOptions::Leveled(c.options()),
            CompactionController::Tiered(c) => CompactionOptions::Tiered(c.options()),
            CompactionController::Simple(c) => CompactionOptions::Simple(c.options()),
            CompactionController::NoCompaction => CompactionOptions::NoCompaction,
        }
    }
}

} // verus!
