//! The buffer-sharing engine: one owner holds the analyzed bytes, replaces
//! them wholesale, and then notifies every registered analyzer in
//! registration order, each of which fully recomputes its derived state
//! before the next is notified. Analyzers hold no reference to the buffer;
//! they are handed read access for the duration of a recompute, so a reader
//! observes either the old buffer in full or the new one in full, never a
//! mixture. Failures are isolated per analyzer: a recompute that cannot use
//! the buffer (a header that does not decode) stores a structured error as
//! its derived state and never stops the remaining analyzers' recompute.
use vstd::prelude::*;

use crate::entropy_plot::{profile_computed, EntropyPlot};
use crate::format_explorer::{format_state, FormatExplorer};
use crate::frequency_image::{matrix_computed, FrequencyImage};
use crate::hex_viewer::HexViewer;
use crate::string_finder::{strings_state, StringFinder};
use crate::Event;

verus! {

/// The shared byte buffer: exclusively owned, replaced atomically and
/// wholesale, never mutated byte by byte.
pub struct SharedBuffer {
    /// The analyzed bytes.
    pub bytes: Vec<u8>,
}

impl SharedBuffer {
    /// An empty buffer.
    pub fn new() -> (r: Self)
        ensures
            r.bytes@ == Seq::<u8>::empty(),
    {
        SharedBuffer { bytes: Vec::new() }
    }

    /// Atomically swaps the buffer contents for `new_bytes`.
    pub fn replace(&mut self, new_bytes: Vec<u8>)
        ensures
            final(self).bytes@ == new_bytes@,
    {
        self.bytes = new_bytes;
    }

    /// Shared read access to the current contents.
    pub fn read(&self) -> (r: &[u8])
        ensures
            r@ == self.bytes@,
    {
        self.bytes.as_slice()
    }

    /// The buffer's length.
    pub fn len(&self) -> (r: usize)
        ensures
            r == self.bytes@.len(),
    {
        self.bytes.len()
    }
}

/// The closed set of analyzers: a tagged variant per analyzer kind,
/// dispatched by one match.
pub enum Tool {
    /// The string scanner.
    Strings(StringFinder),
    /// The entropy profiler.
    Entropy(EntropyPlot),
    /// The byte-pair frequency mapper.
    Frequency(FrequencyImage),
    /// The windowed hex renderer.
    Hex(HexViewer),
    /// The binary-header decoder.
    Format(FormatExplorer),
}

/// `after` is `before` with its derived state fully recomputed against
/// buffer `s`: the analyzer kind and its settings are kept, and its cached
/// state is exactly what its recompute owes for `s`.
pub open spec fn tool_recomputed(before: Tool, after: Tool, s: Seq<u8>) -> bool {
    match (before, after) {
        (Tool::Strings(b), Tool::Strings(a)) => {
            &&& a.string_min_length == b.string_min_length
            &&& a.current_sorting == b.current_sorting
            &&& strings_state(a.strings@, s, b.string_min_length as nat, b.current_sorting)
        },
        (Tool::Entropy(_), Tool::Entropy(a)) => profile_computed(a.chunks@, s),
        (Tool::Frequency(_), Tool::Frequency(a)) => matrix_computed(a.counts@, a.max_count, s),
        (Tool::Hex(_), Tool::Hex(_)) => true,
        (Tool::Format(_), Tool::Format(a)) => format_state(a.parsed, s),
        _ => false,
    }
}

/// The display name of a tool.
pub open spec fn tool_title(t: Tool) -> Seq<char> {
    match t {
        Tool::Strings(_) => "Strings"@,
        Tool::Entropy(_) => "Entropy Plot"@,
        Tool::Frequency(_) => "Byte pairs frequency"@,
        Tool::Hex(_) => "Hex Viewer"@,
        Tool::Format(_) => "Format Explorer"@,
    }
}

impl Tool {
    /// Delivers one event: the analyzer fully recomputes its derived state
    /// against the buffer before returning.
    pub fn notify(&mut self, event: Event, file: &[u8])
        ensures
            tool_recomputed(*old(self), *final(self), file@),
    {
        match self {
            Tool::Strings(t) => t.notify_event(event, file),
            Tool::Entropy(t) => t.notify(event, file),
            Tool::Frequency(t) => t.notify(event, file),
            Tool::Hex(t) => t.notify(event, file),
            Tool::Format(t) => t.notify(event, file),
        }
    }

    /// Display name of the analyzer.
    pub fn title(&self) -> (r: String)
        ensures
            r@ == tool_title(*self),
    {
        match self {
            Tool::Strings(t) => t.title(),
            Tool::Entropy(t) => t.title(),
            Tool::Frequency(t) => t.title(),
            Tool::Hex(t) => t.title(),
            Tool::Format(t) => t.title(),
        }
    }
}

/// Every tool of `after` is the corresponding tool of `before` recomputed
/// against buffer `s`, and none was added or dropped.
pub open spec fn tools_recomputed(before: Seq<Tool>, after: Seq<Tool>, s: Seq<u8>) -> bool {
    &&& after.len() == before.len()
    &&& forall|i: int| 0 <= i < after.len() ==> tool_recomputed(before[i], #[trigger] after[i], s)
}

/// The workbench: the shared buffer and the registered analyzers, notified
/// in registration order after every replacement.
pub struct Workbench {
    /// The shared buffer all analyzers read.
    pub current_file: SharedBuffer,
    /// The registered analyzers, in registration order.
    pub tools: Vec<Tool>,
}

impl Workbench {
    /// An empty workbench over an empty buffer.
    pub fn new() -> (r: Self)
        ensures
            r.current_file.bytes@ == Seq::<u8>::empty(),
            r.tools@ == Seq::<Tool>::empty(),
    {
        Workbench { current_file: SharedBuffer::new(), tools: Vec::new() }
    }

    /// Registers an analyzer behind those already present.
    pub fn add_tool(&mut self, tool: Tool)
        ensures
            final(self).tools@ == old(self).tools@.push(tool),
            final(self).current_file == old(self).current_file,
    {
        self.tools.push(tool);
    }

    /// Broadcasts one event to every analyzer, synchronously and in
    /// registration order; each fully recomputes its derived state against
    /// the current buffer before the next is notified.
    pub fn notify_tools(&mut self, event: Event)
        ensures
            final(self).current_file == old(self).current_file,
            tools_recomputed(old(self).tools@, final(self).tools@, old(self).current_file.bytes@),
    {
        let ghost orig_tools = self.tools@;
        let ghost cf = self.current_file;
        let ghost buf = self.current_file.bytes@;
        let n = self.tools.len();
        let mut i: usize = 0;
        while i < n
            invariant
                i <= n,
                n == self.tools@.len(),
                self.tools@.len() == orig_tools.len(),
                self.current_file == cf,
                self.current_file.bytes@ == buf,
                forall|k: int|
                    0 <= k < i ==> tool_recomputed(orig_tools[k], #[trigger] self.tools@[k], buf),
                forall|k: int| i <= k < n ==> #[trigger] self.tools@[k] == orig_tools[k],
            decreases n - i,
        {
            let tool = &mut self.tools[i];
            tool.notify(event, self.current_file.bytes.as_slice());
            i = i + 1;
        }
    }

    /// Atomically replaces the buffer, then notifies every analyzer that the
    /// buffer changed: afterwards each one's derived state is recomputed
    /// against the new bytes.
    pub fn replace_file(&mut self, new_bytes: Vec<u8>)
        ensures
            final(self).current_file.bytes@ == new_bytes@,
            tools_recomputed(old(self).tools@, final(self).tools@, new_bytes@),
    {
        self.current_file.replace(new_bytes);
        self.notify_tools(Event::FileChanged);
    }
}

} // verus!
