//! The output sink: screen writes are batched into a string buffer that the
//! caller owns and flushes in one write. The buffer is an explicit value
//! handed in by the caller, so a session can substitute its own.

use vstd::prelude::*;
use vstd::string::StringExecFns;

verus! {

/// Whether a screen clear is queued before each redraw.
pub const CLEAR_TERMINAL: bool = true;

/// Which of the two dimensions a caller is asking the player for.
pub enum SizeInput {
    Width,
    Height,
}

/// The control sequence that clears the screen and homes the cursor.
pub open spec fn clear_sequence() -> Seq<char> {
    "\x1b[2J\x1b[1;1H"@
}

/// Appends text to the output buffer.
pub fn put(out: &mut String, string: &str)
    ensures
        final(out)@ == old(out)@ + string@,
{
    out.append(string);
}

/// Queues a terminal clear in the output buffer, when clearing is enabled.
pub fn clear_terminal(out: &mut String)
    ensures
        final(out)@ == if CLEAR_TERMINAL {
            old(out)@ + clear_sequence()
        } else {
            old(out)@
        },
{
    if CLEAR_TERMINAL {
        out.append("\x1b[2J\x1b[1;1H");
    }
}

} // verus!
