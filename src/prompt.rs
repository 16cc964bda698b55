use vstd::prelude::*;

use crate::text::{concat, trim, trimmed};

verus! {

/// Asks questions on `writer` and reads the answers, one line each, from `reader`.
pub struct Prompt<R, W> {
    pub reader: R,
    pub writer: W,
}

/// Relies on `BufRead::read_line`: one line, with its line break, or `None`
/// when reading failed.
#[verifier::external_body]
fn read_line_from<R: std::io::BufRead>(reader: &mut R) -> (r: Option<String>) {
    let mut line = String::new();
    match reader.read_line(&mut line) {
        Ok(_) => Some(line),
        Err(_) => None,
    }
}

/// Relies on `Write::write_all`; tells whether the text was written.
#[verifier::external_body]
fn write_text<W: std::io::Write>(writer: &mut W, text: &str) -> (r: bool) {
    writer.write_all(text.as_bytes()).is_ok()
}

/// Relies on `Write::flush`; tells whether it succeeded.
#[verifier::external_body]
fn flush_writer<W: std::io::Write>(writer: &mut W) -> (r: bool) {
    writer.flush().is_ok()
}

/// The answer that a line of input gives to a text question: the line
/// without its last character (the line break), trimmed.
pub open spec fn text_answer(line: Seq<char>) -> Seq<char> {
    if line.len() == 0 {
        line
    } else {
        trimmed(line.drop_last())
    }
}

/// The answer that a line of input gives to a yes/no question: yes exactly
/// when it starts with `y`.
pub open spec fn yes_answer(line: Seq<char>) -> bool {
    line.len() > 0 && line[0] == 'y'
}

/// Computes the answer to a text question from the line read.
pub fn text_entry_answer(line: &str) -> (r: String)
    ensures
        r@ == text_answer(line@),
{
    let n = line.unicode_len();
    if n == 0 {
        return String::new();
    }
    let body = line.substring_char(0, n - 1);
    proof {
        assert(body@ =~= line@.drop_last());
    }
    trim(body)
}

/// Computes the answer to a yes/no question from the line read.
pub fn yes_no_answer(line: &str) -> (r: bool)
    ensures
        r == yes_answer(line@),
{
    line.unicode_len() > 0 && line.get_char(0) == 'y'
}

impl<R: std::io::BufRead, W: std::io::Write> Prompt<R, W> {
    /// Writes `question`, reads one line and answers it without its line break
    /// and trimmed; a line that cannot be read answers the empty text.
    pub fn ask_text_entry(&mut self, question: &str) -> (r: String)
        ensures
            r@.len() == 0 || exists|line: Seq<char>| r@ == text_answer(line),
    {
        let _ = write_text(&mut self.writer, question);
        let _ = flush_writer(&mut self.writer);
        match read_line_from(&mut self.reader) {
            Some(line) => text_entry_answer(line.as_str()),
            None => String::new(),
        }
    }

    /// Writes `question` followed by ` (y/n) `, reads one line and answers
    /// yes exactly when it starts with `y`; a line that cannot be read answers no.
    pub fn ask_yes_no_question(&mut self, question: &str) -> (r: bool)
        ensures
            !r || exists|line: Seq<char>| r == yes_answer(line),
    {
        let text = concat(question, " (y/n) ");
        let _ = write_text(&mut self.writer, text.as_str());
        let _ = flush_writer(&mut self.writer);
        match read_line_from(&mut self.reader) {
            Some(line) => yes_no_answer(line.as_str()),
            None => false,
        }
    }
}

} // verus!
