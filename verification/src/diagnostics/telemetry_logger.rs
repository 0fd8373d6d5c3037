//! A log of states.

use crate::io_bridge::state_vector::StateVector;
use crate::text::{
    joined, law_joined_holds_parts, lemma_brackets, lemma_grows, number_text, occurs, push_joined,
    push_number, texts,
};
use vstd::prelude::*;
use vstd::string::*;

verus! {

/// Appends states to a local file, one line of JSON for each.
pub struct TelemetryLogger {
    pub file_path: String,
}

/// The line for a state of the hardware `hardware_id`, whose numbers are written
/// `numbers`.
pub open spec fn line_of(
    timestamp: u64,
    hardware_id: Seq<char>,
    numbers: Seq<Seq<char>>,
) -> Seq<char> {
    "{\"timestamp\":"@ + number_text(timestamp as nat) + ",\"hardware\":\""@ + hardware_id
        + "\",\"values\":["@ + joined(numbers, ", "@) + "]}\n"@
}

impl TelemetryLogger {
    pub fn new(file_path: &str) -> (l: TelemetryLogger)
        ensures
            l.file_path@ == file_path@,
    {
        TelemetryLogger { file_path: file_path.to_string() }
    }

    /// The line that records a state. `numbers` are its entries as text.
    pub fn log_line(&self, state: &StateVector, numbers: &Vec<String>) -> (line: String)
        requires
            numbers@.len() == state.len,
        ensures
            line@ == line_of(state.timestamp, state.hardware_id@, texts(numbers@)),
    {
        let mut line: String = "{\"timestamp\":".to_string();
        push_number(&mut line, state.timestamp);
        line.append(",\"hardware\":\"");
        line.append(state.hardware_id.as_str());
        line.append("\",\"values\":[");
        push_joined(&mut line, numbers, ", ");
        line.append("]}\n");
        line
    }
}

/// A line holds the time, the name of the hardware and every number, each in its place.
pub proof fn law_line_holds_the_state(
    timestamp: u64,
    hardware_id: Seq<char>,
    numbers: Seq<Seq<char>>,
    i: int,
)
    requires
        0 <= i < numbers.len(),
    ensures
        ({
            let line = line_of(timestamp, hardware_id, numbers);
            &&& occurs(line, "{\"timestamp\":"@ + number_text(timestamp as nat))
            &&& occurs(line, ",\"hardware\":\""@ + hardware_id)
            &&& occurs(line, numbers[i])
        }),
{
    let time = "{\"timestamp\":"@ + number_text(timestamp as nat);
    let name = ",\"hardware\":\""@ + hardware_id;
    let all = joined(numbers, ", "@);
    let (b, c) = ("\",\"values\":["@, "]}\n"@);
    lemma_brackets(time, ",\"hardware\":\""@, hardware_id, b);
    let front = time + name;
    lemma_grows(time, name, time);
    lemma_grows(time, name, name);
    lemma_shown(front, b, all, c, time);
    lemma_shown(front, b, all, c, name);
    law_joined_holds_parts(numbers, ", "@, i);
    lemma_shown(front, b, all, c, numbers[i]);
}

proof fn lemma_shown(a: Seq<char>, b: Seq<char>, c: Seq<char>, d: Seq<char>, w: Seq<char>)
    requires
        occurs(a, w) || occurs(c, w),
    ensures
        occurs(a + b + c + d, w),
{
    lemma_grows(a, b, w);
    lemma_grows(a + b, c, w);
    lemma_grows(a + b + c, d, w);
}

} // verus!
