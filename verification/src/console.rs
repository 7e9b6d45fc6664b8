use vstd::prelude::*;

verus! {

/// The console mode flag that makes the console interpret ANSI escape
/// sequences (colours) written to it.
pub const ENABLE_VIRTUAL_TERMINAL_PROCESSING: u32 = 0x0004;

/// The event type of a keyboard event in a console input record.
pub const KEY_EVENT: u16 = 0x0001;

/// The virtual key code of the Esc key.
pub const VK_ESCAPE: u16 = 0x1B;

/// The mode to give a console stream whose current mode is `mode`: the same
/// flags with virtual-terminal processing added; nothing when the current
/// mode could not be read.
pub open spec fn with_ansi(mode: Option<u32>) -> Option<u32> {
    match mode {
        Some(m) => Some(m | ENABLE_VIRTUAL_TERMINAL_PROCESSING),
        None => None,
    }
}

/// Turns on colours for standard output and standard error: given each
/// stream's console mode where the console reported one, the mode to set
/// on it (see `with_ansi`).
pub fn enable_ansi_support(stdout_mode: Option<u32>, stderr_mode: Option<u32>) -> (r: (Option<u32>, Option<u32>))
    ensures
        r.0 == with_ansi(stdout_mode),
        r.1 == with_ansi(stderr_mode),
{
    let out = match stdout_mode {
        Some(m) => Some(m | ENABLE_VIRTUAL_TERMINAL_PROCESSING),
        None => None,
    };
    let err = match stderr_mode {
        Some(m) => Some(m | ENABLE_VIRTUAL_TERMINAL_PROCESSING),
        None => None,
    };
    (out, err)
}

/// Whether one read of the console input ends the wait for Esc: an event
/// was read (`events_read`), it is a keyboard event, the key went down and
/// it is Esc.
pub fn escape_pressed(events_read: u32, event_type: u16, key_down: i32, virtual_key: u16) -> (r: bool)
    ensures
        r == (events_read != 0 && event_type == KEY_EVENT && key_down != 0 && virtual_key == VK_ESCAPE),
{
    events_read != 0 && event_type == KEY_EVENT && key_down != 0 && virtual_key == VK_ESCAPE
}

} // verus!
