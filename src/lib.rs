//! Stack introspection for freestanding environments: walk the frame-pointer
//! chain of the current call stack and resolve return addresses to symbols.
pub mod backtrace;
pub mod symbolize;

pub use backtrace::{caller_frame, next_step, Frame, FrameView, WalkStep};
pub use symbolize::elf::image_readable;
pub use symbolize::name::SymbolName;
pub use symbolize::{nearest_symbol, resolve, resolve_symbols, symbols_at, LineRecord, Symbol};
