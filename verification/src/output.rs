//! The output of a slash command: its text and the labelled sections that
//! the editor folds it into.

use vstd::prelude::*;

use crate::text::byte_len;

verus! {

/// A labelled range of the output text, in bytes.
pub struct OutputSection {
    pub start: usize,
    pub end: usize,
    pub label: String,
}

/// What a slash command answers.
pub struct CommandOutput {
    pub text: String,
    pub sections: Vec<OutputSection>,
}

/// `out` is the text `text` in one section, labelled `label`, that spans
/// all of it.
pub open spec fn whole_text_output(out: CommandOutput, text: Seq<char>, label: Seq<char>) -> bool {
    &&& out.text@ == text
    &&& out.sections@.len() == 1
    &&& out.sections@[0].start == 0
    &&& out.sections@[0].end == byte_len(text) as usize
    &&& out.sections@[0].label@ == label
}

/// Wraps `text` in one section labelled `label` that spans all of it.
pub fn whole_text(text: String, label: String) -> (r: CommandOutput)
    ensures
        whole_text_output(r, text@, label@),
{
    let end = text.as_str().len();
    let mut sections: Vec<OutputSection> = Vec::new();
    sections.push(OutputSection { start: 0, end, label });
    CommandOutput { text, sections }
}

} // verus!
