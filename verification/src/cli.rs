//! What a run is asked to do.

use vstd::prelude::*;

verus! {

/// The options of a run.
#[derive(Debug)]
pub struct Args {
    /// The capture file, "-" for standard input.
    pub read_file: String,
    /// Stop after this many packets.
    pub count: Option<u64>,
    /// Worker threads for dissection, 0 for the default.
    pub jobs: usize,
    /// Packets per batch.
    pub batch: usize,
    /// Dissect on one thread.
    pub no_parallel: bool,
    /// Print no packets.
    pub quiet: bool,
    /// Print the whole detail tree of each packet.
    pub verbose: bool,
    /// Print only the values of these fields.
    pub fields: Vec<String>,
    /// Print only packets of which this filter is true.
    pub display_filter: Option<String>,
    /// The statistics report to print at the end.
    pub statistics: Option<String>,
    /// Decode every SEND capsule as NVMe.
    pub nvme: bool,
}

/// How packets are printed.
#[derive(Debug, Clone, Copy, PartialEq, Eq, Structural)]
pub enum OutputMode {
    Summary,
    Verbose,
    Fields,
}

/// How packets are printed: as fields if any are asked for, else as whole
/// trees if that is asked for, else as summary lines.
pub open spec fn mode_of(fields: nat, verbose: bool) -> OutputMode {
    if fields > 0 {
        OutputMode::Fields
    } else if verbose {
        OutputMode::Verbose
    } else {
        OutputMode::Summary
    }
}

impl Args {
    /// How packets are printed.
    pub fn output_mode(&self) -> (r: OutputMode)
        ensures
            r == mode_of(self.fields@.len(), self.verbose),
    {
        if self.fields.len() > 0 {
            OutputMode::Fields
        } else if self.verbose {
            OutputMode::Verbose
        } else {
            OutputMode::Summary
        }
    }
}

// ---- laws ----

/// Fields win over the whole tree, and that over summary lines: verbose output
/// comes exactly if it is asked for and no field is.
pub proof fn law_fields_win_over_verbose(fields: nat, verbose: bool)
    ensures
        mode_of(fields, verbose) == OutputMode::Fields <==> fields > 0,
        mode_of(fields, verbose) == OutputMode::Verbose <==> fields == 0 && verbose,
        mode_of(fields, verbose) == OutputMode::Summary <==> fields == 0 && !verbose,
{
}

} // verus!
