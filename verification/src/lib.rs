//! Dumper and patcher logic for the Dokapon DX GameCube executable and its
//! event scripts: byte decoding, the DOL header, the SPT command walker and
//! packer, the PowerPC immediate-pair scanner and the long-name bank.

pub mod bytes;
pub mod shape;
pub mod text;
pub mod longname;
pub mod sorted_map;
pub mod constants;
pub mod ppc;
pub mod spt;

pub mod pack;
pub mod utils;
pub mod dol;
pub mod patcher;
pub mod script_patch;
pub mod verdicts;
pub mod dump;
pub mod spt_dump;
pub mod dump_all;
pub mod dol_sidecar;
