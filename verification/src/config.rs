//! The simulation configuration carried by the configuration file, and the
//! decision that maps its path fields onto inputs.

use vstd::prelude::*;

use crate::args::{path_from_str, Input, ProcessArgs, WorldArgs};
use crate::text::str_eq;

verus! {

/// The decision behind reading an input from configuration text: the
/// literal `stdin` selects the stdin input, anything else names a path.
pub fn input_from_str(s: &str) -> (r: Input)
    ensures
        r is Stdin <==> s@ == "stdin"@,
{
    if str_eq(s, "stdin") {
        Input::Stdin
    } else {
        Input::Path(path_from_str(s))
    }
}

/// Configuration for one run: where the document comes from and how the
/// world and the process are set up.
pub struct SimulationConfig {
    /// The document source.
    pub input: Input,

    /// How the compilation process is configured.
    pub process_config: ProcessArgs,

    /// How the world is constructed.
    pub world_config: WorldArgs,
}

impl core::default::Default for SimulationConfig {
    fn default() -> (d: Self)
        ensures
            d.input is Stdin,
            d.process_config.jobs is None,
            d.process_config.features@.len() == 0,
            d.process_config.diagnostic_format is Human,
            d.world_config.root is None,
            d.world_config.inputs@.len() == 0,
            d.world_config.font.font_paths@.len() == 0,
            !d.world_config.font.ignore_system_fonts,
            d.world_config.package.package_path is None,
            d.world_config.package.package_cache_path is None,
    {
        SimulationConfig {
            input: Input::Stdin,
            process_config: ProcessArgs::default(),
            world_config: WorldArgs::default(),
        }
    }
}

} // verus!
