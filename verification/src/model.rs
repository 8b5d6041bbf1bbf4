//! The two record shapes exchanged with the bar host: the one-shot
//! header and the per-tick renderable block.

use vstd::prelude::*;

verus! {

/// The header record, emitted exactly once at startup.  Its fields are
/// fixed for this program: protocol version 1, no custom pause/resume
/// signals, click events disabled.
pub struct I3BarHeader {
    pub version: usize,
    pub stop_signal: usize,
    pub cont_signal: usize,
    pub click_events: bool,
}

impl Default for I3BarHeader {
    /// The one header this program ever emits.
    fn default() -> (h: Self)
        ensures
            h.version == 1,
            h.stop_signal == 0,
            h.cont_signal == 0,
            h.click_events == false,
    {
        I3BarHeader { version: 1, stop_signal: 0, cont_signal: 0, click_events: false }
    }
}

/// One renderable segment of the bar: the text shown and its color.
pub struct I3BarBlock {
    pub full_text: String,
    pub color: String,
}

/// Text that can stand inside a JSON string of an emitted line without
/// escaping: no quote, no backslash, no control character.  Every text
/// the probes produce satisfies this.
pub open spec fn wf_text(s: Seq<char>) -> bool {
    forall|i: int|
        0 <= i < s.len() ==> s[i] != '"' && s[i] != '\\' && #[trigger] (s[i] as int) >= 32
}

/// A block whose two fields can be framed as an emitted line.
pub open spec fn wf_block(b: I3BarBlock) -> bool {
    wf_text(b.full_text@) && wf_text(b.color@)
}

/// A whole per-tick payload whose blocks can all be framed.
pub open spec fn wf_blocks(bs: Seq<I3BarBlock>) -> bool {
    forall|i: int| 0 <= i < bs.len() ==> wf_block(#[trigger] bs[i])
}

/// Runtime check for [`wf_text`], for callers outside verified code
/// that must establish it before framing a line.
pub fn text_ok(s: &str) -> (r: bool)
    ensures
        r == wf_text(s@),
{
    let n = s.unicode_len();
    let mut i: usize = 0;
    while i < n
        invariant
            n == s@.len(),
            i <= n,
            forall|j: int|
                0 <= j < i ==> s@[j] != '"' && s@[j] != '\\' && #[trigger] (s@[j] as int) >= 32,
        decreases n - i,
    {
        let c = s.get_char(i);
        if c == '"' || c == '\\' || (c as u32) < 32 {
            return false;
        }
        i += 1;
    }
    true
}

/// Runtime check for [`wf_block`].
pub fn block_ok(b: &I3BarBlock) -> (r: bool)
    ensures
        r == wf_block(*b),
{
    text_ok(b.full_text.as_str()) && text_ok(b.color.as_str())
}

} // verus!
