//! Output for the terminal that keeps track of the colours in effect.

use crate::terminal::{bg_code, bg_reset, fg_code, fg_reset};
use vstd::prelude::*;
use vstd::utf8::encode_utf8;

verus! {

/// Collects output for the terminal and keeps track of the colour codes in it, so that no code is
/// written for a colour that is in effect already.
pub struct CachingAnsciWriter {
    pub buf: Vec<u8>,
    pub cur_fg: Option<u8>,
    pub cur_bg: Option<u8>,
}

/// What a writer holds: the bytes written, and the colours in effect where one was chosen.
#[verifier::ext_equal]
pub struct WriterView {
    pub bytes: Seq<u8>,
    pub fg: Option<u8>,
    pub bg: Option<u8>,
}

impl View for CachingAnsciWriter {
    type V = WriterView;

    open spec fn view(&self) -> WriterView {
        WriterView { bytes: self.buf@, fg: self.cur_fg, bg: self.cur_bg }
    }
}

/// A writer that holds nothing, with no colour chosen.
pub open spec fn blank_writer() -> WriterView {
    WriterView { bytes: Seq::empty(), fg: None, bg: None }
}

/// A writer after a text was written.
pub open spec fn wrote(w: WriterView, text: Seq<char>) -> WriterView {
    WriterView { bytes: w.bytes + encode_utf8(text), ..w }
}

/// A writer with no colour in effect: each that is chosen is taken back by its code.
pub open spec fn uncolored(w: WriterView) -> WriterView {
    let fg_code = if w.fg is Some {
        encode_utf8("\x1b[39m"@)
    } else {
        Seq::empty()
    };
    let bg_code = if w.bg is Some {
        encode_utf8("\x1b[49m"@)
    } else {
        Seq::empty()
    };
    WriterView { bytes: w.bytes + fg_code + bg_code, fg: None, bg: None }
}

/// A writer with the given colours in effect: each that is not yet is chosen by its code.
pub open spec fn colored(w: WriterView, fg: u8, bg: u8) -> WriterView {
    let fg_bytes = if w.fg != Some(fg) {
        encode_utf8(fg_code(fg))
    } else {
        Seq::empty()
    };
    let bg_bytes = if w.bg != Some(bg) {
        encode_utf8(bg_code(bg))
    } else {
        Seq::empty()
    };
    WriterView { bytes: w.bytes + fg_bytes + bg_bytes, fg: Some(fg), bg: Some(bg) }
}

/// Between two texts in the same colours nothing is written.
pub proof fn law_same_colors_written_once(w: WriterView, fg: u8, bg: u8, text: Seq<char>)
    ensures
        ({
            let first = wrote(colored(w, fg, bg), text);
            colored(first, fg, bg) == first
        }),
{
    let first = wrote(colored(w, fg, bg), text);
    assert(colored(first, fg, bg) =~= first);
}

/// Between two texts without colours nothing is written.
pub proof fn law_no_color_written_once(w: WriterView, text: Seq<char>)
    ensures
        ({
            let first = wrote(uncolored(w), text);
            uncolored(first) == first
        }),
{
    let first = wrote(uncolored(w), text);
    assert(uncolored(first) =~= first);
}

impl Default for CachingAnsciWriter {
    fn default() -> (w: CachingAnsciWriter)
        ensures
            w@ == blank_writer(),
    {
        CachingAnsciWriter { buf: Vec::new(), cur_fg: None, cur_bg: None }
    }
}

impl CachingAnsciWriter {
    /// The bytes written.
    pub fn into_vec(self) -> (bytes: Vec<u8>)
        ensures
            bytes@ == self@.bytes,
    {
        self.buf
    }

    /// Takes back the colours in effect.
    pub fn reset_color(&mut self)
        ensures
            final(self)@ == uncolored(old(self)@),
    {
        if self.cur_fg.is_some() {
            self.cur_fg = None;
            self.write_str(fg_reset().as_str());
        }
        if self.cur_bg.is_some() {
            self.cur_bg = None;
            self.write_str(bg_reset().as_str());
        }
        assert(self@ =~= uncolored(old(self)@));
    }

    /// Puts colours into effect.
    pub fn change_color(&mut self, fg: u8, bg: u8)
        ensures
            final(self)@ == colored(old(self)@, fg, bg),
    {
        if self.cur_fg != Some(fg) {
            self.cur_fg = Some(fg);
            self.write_str(crate::terminal::fg(fg).as_str());
        }
        if self.cur_bg != Some(bg) {
            self.cur_bg = Some(bg);
            self.write_str(crate::terminal::bg(bg).as_str());
        }
        assert(self@ =~= colored(old(self)@, fg, bg));
    }

    /// Writes bytes, and returns how many of them were written: all.
    pub fn write(&mut self, buf: &[u8]) -> (n: usize)
        ensures
            n == buf@.len(),
            final(self)@ == (WriterView { bytes: old(self)@.bytes + buf@, ..old(self)@ }),
    {
        self.buf.extend_from_slice(buf);
        assert(self.buf@ =~= old(self)@.bytes + buf@);
        buf.len()
    }

    /// Sends off what waits to be sent: nothing does.
    pub fn flush(&mut self)
        ensures
            final(self)@ == old(self)@,
    {
    }

    /// Writes a text.
    pub fn write_str(&mut self, text: &str)
        ensures
            final(self)@ == wrote(old(self)@, text@),
    {
        self.write(text.as_bytes());
    }
}

} // verus!
