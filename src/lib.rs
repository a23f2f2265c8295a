//! Live stylesheet compilation: a validated pair of directories, a full
//! compile pass over the source tree, the plan of files it writes, and the
//! decision to recompile when the source tree changed.

pub mod compile;
pub mod context;
pub mod gate;
pub mod naming;
pub mod output;

pub use compile::{compile_outcomes, CompileFailure, CompilePass, CompiledAsset, EntryKind, SourceEntry};
pub use context::{settle_output_dir, ConfigError, Context, ContextManager, DirRole, SassBackend};
pub use gate::{GatePhase, RecompileGate};
pub use naming::{css_file_name, output_path, parent_and_name};
pub use output::{plan_outputs, OutputFile};
