//! Verified importers of assistant session usage and the Gemini / Antigravity
//! session and MCP configuration readers around them.

pub mod alike;
pub mod antigravity;
pub mod clock;
pub mod codebuddy;
pub mod codebuddy_logs;
pub mod entries;
pub mod estimate;
pub mod files;
pub mod json;
pub mod maps;
pub mod mcp;
pub mod money;
pub mod order;
pub mod paths;
pub mod patterns;
pub mod qoder;
pub mod qodercn;
pub mod session_files;
pub mod sessions;
pub mod tags;
pub mod text;
pub mod traces;
pub mod usage;
pub mod walks;
pub mod wire;
pub mod workbuddy;
