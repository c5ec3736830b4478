use vstd::prelude::*;

verus! {

/// The level of a debug message.
pub const DEBUG_LEVEL: u16 = 501;

/// The level of a warning.
pub const WARNING_LEVEL: u16 = 301;

/// A message logged while a pattern runs: its level, its text, and the file
/// the pattern was working on, where there was one.
#[derive(Clone, Debug)]
pub struct AnalysisLog {
    pub level: u16,
    pub message: String,
    pub file: Option<String>,
}

/// The file name of a log entry, as characters.
pub open spec fn file_view(file: Option<String>) -> Option<Seq<char>> {
    match file {
        Some(f) => Some(f@),
        None => None,
    }
}

/// `logs` is `before` with one entry added at the end, of the given level,
/// message and file.
pub open spec fn logged(
    logs: Seq<AnalysisLog>,
    before: Seq<AnalysisLog>,
    level: u16,
    message: Seq<char>,
    file: Option<Seq<char>>,
) -> bool {
    &&& logs.len() == before.len() + 1
    &&& logs.take(before.len() as int) == before
    &&& logs.last().level == level
    &&& logs.last().message@ == message
    &&& file_view(logs.last().file) == file
}

fn log_at(analysis_logs: &mut Vec<AnalysisLog>, level: u16, file_name: Option<String>, message: &str)
    ensures
        logged(final(analysis_logs)@, old(analysis_logs)@, level, message@, file_view(file_name)),
{
    let entry = AnalysisLog { level, message: message.to_owned(), file: file_name };
    analysis_logs.push(entry);
    assert(final(analysis_logs)@.take(old(analysis_logs)@.len() as int) =~= old(analysis_logs)@);
}

/// Logs `message` as a debug message, with the name of the file being worked
/// on where it is known.
pub fn debug(analysis_logs: &mut Vec<AnalysisLog>, file_name: Option<String>, message: &str)
    ensures
        logged(final(analysis_logs)@, old(analysis_logs)@, DEBUG_LEVEL, message@, file_view(file_name)),
{
    log_at(analysis_logs, DEBUG_LEVEL, file_name, message);
}

/// Logs `message` as a warning, with the name of the file being worked on
/// where it is known.
pub fn warning(analysis_logs: &mut Vec<AnalysisLog>, file_name: Option<String>, message: &str)
    ensures
        logged(
            final(analysis_logs)@,
            old(analysis_logs)@,
            WARNING_LEVEL,
            message@,
            file_view(file_name),
        ),
{
    log_at(analysis_logs, WARNING_LEVEL, file_name, message);
}

} // verus!
