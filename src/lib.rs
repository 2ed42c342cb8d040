//! x86 disassembly listings with mnemonic statistics and ISA-extension summaries.
pub mod decode;
pub mod disassembler;
pub mod render;
pub mod stats;
pub mod text;

pub use decode::Bitness;
pub use disassembler::{disassemble, DisassemblerResult};
