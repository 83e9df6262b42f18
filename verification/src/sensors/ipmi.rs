//! Temperatures from `ipmitool sdr type temperature`.
//!
//! The BMC is slow, so `ipmitool` is run once per tick and its output kept; the
//! sensors are then looked up in it. The output has one row per sensor:
//!
//! ```text
//! Inlet Temp       | 04h | ok  |  7.1 | 20 degrees C
//! Power Supply 1   | C2h | ns  |  10.1 | No Reading
//! ```
//!
//! A row counts where its status is `ok` and its value is a number of
//! `degrees C`. Where several rows have the same name, the last one counts.

use vstd::prelude::*;
use vstd::hash_map::StringHashMap;
use vstd::string::*;
use vstd::utf8::*;
use crate::binary32::Binary32;
use crate::command::{self, CommandOutcome};
use crate::numeral;
use crate::sensors::SensorError;
use crate::text::{self, equal_but_case, from_utf8_lossy, same_text, split, split_words, trim};

verus! {

/// The temperature that a value of the form `<number> degrees C` gives.
pub open spec fn temperature(value: Seq<char>) -> Option<Binary32> {
    let words = text::words(value);
    if words.len() == 3 && words[1] == "degrees"@ && words[2] == "C"@ {
        numeral::numeral(words[0])
    } else {
        None
    }
}

/// The sensor and the temperature that a row gives, if it gives one.
pub open spec fn row(line: Seq<char>) -> Option<(Seq<char>, Binary32)> {
    let fields = text::pieces(text::trimmed(line), '|');
    if fields.len() < 5 {
        None
    } else if !text::same_but_case(text::trimmed(fields[2]), "ok"@) {
        None
    } else {
        match temperature(text::trimmed(fields[4])) {
            Some(t) => Some((text::trimmed(fields[0]), t)),
            None => None,
        }
    }
}

/// The temperatures by sensor that the rows give, taken in order.
pub open spec fn table(lines: Seq<Seq<char>>) -> Map<Seq<char>, Binary32>
    decreases lines.len(),
{
    if lines.len() == 0 {
        Map::empty()
    } else {
        let before = table(lines.drop_last());
        match row(lines.last()) {
            Some((name, t)) => before.insert(name, t),
            None => before,
        }
    }
}

/// The temperatures by sensor that an output gives.
pub open spec fn output_table(output: Seq<char>) -> Map<Seq<char>, Binary32> {
    table(text::pieces(output, '\n'))
}

/// Reads a temperature.
pub fn parse_temp(value: &str) -> (r: Option<Binary32>)
    ensures
        r == temperature(value@),
{
    let words: Vec<&str> = split_words(value);
    proof {
        assert(text::texts(words@).len() == words@.len());
        assert forall|i: int| 0 <= i < words@.len() implies text::texts(words@)[i]
            == #[trigger] words@[i]@ by {}
    }
    if words.len() == 3 && same_text(words[1], "degrees") && same_text(words[2], "C") {
        numeral::parse(words[0])
    } else {
        None
    }
}

/// Reads a row.
fn parse_row<'a>(line: &'a str) -> (r: Option<(&'a str, Binary32)>)
    ensures
        match r {
            Some((name, t)) => row(line@) == Some((name@, t)),
            None => row(line@) is None,
        },
{
    let fields: Vec<&'a str> = split(trim(line), '|');
    proof {
        assert(text::texts(fields@).len() == fields@.len());
        assert forall|i: int| 0 <= i < fields@.len() implies text::texts(fields@)[i]
            == #[trigger] fields@[i]@ by {}
    }
    if fields.len() < 5 {
        return None;
    }
    if !equal_but_case(trim(fields[2]), "ok") {
        return None;
    }
    match parse_temp(trim(fields[4])) {
        Some(t) => Some((trim(fields[0]), t)),
        None => None,
    }
}

/// Reads the output of `ipmitool sdr type temperature`.
pub fn parse_sdr(output: &str) -> (r: StringHashMap<Binary32>)
    ensures
        r@ == output_table(output@),
{
    let mut r: StringHashMap<Binary32> = StringHashMap::new();
    let lines: Vec<&str> = split(output, '\n');
    let ghost all = text::texts(lines@);
    let n: usize = lines.len();
    assert(all.take(0) =~= Seq::empty());
    for i in 0..n
        invariant
            n == lines@.len(),
            all == text::texts(lines@),
            r@ == table(all.take(i as int)),
    {
        assert(all.take(i as int + 1).drop_last() =~= all.take(i as int));
        assert(all.take(i as int + 1).last() == lines@[i as int]@);
        if let Some((name, t)) = parse_row(lines[i]) {
            r.insert(name.to_owned(), t);
        }
    }
    assert(all.take(n as int) =~= all);
    r
}

/// The temperatures of the last output.
pub struct IpmiCache {
    entries: StringHashMap<Binary32>,
    /// Whether there ever was an output: without one a sensor is not missing
    /// but not asked for yet.
    pub ever_refreshed: bool,
}

impl View for IpmiCache {
    type V = Map<Seq<char>, Binary32>;

    closed spec fn view(&self) -> Map<Seq<char>, Binary32> {
        self.entries@
    }
}

/// What a failed refresh is reported as.
pub open spec fn refresh_failure(outcome: CommandOutcome) -> Seq<char> {
    match outcome {
        CommandOutcome::NotStarted(reason) => "spawn ipmitool: "@ + reason@,
        CommandOutcome::Exited { status, stderr, .. } => "ipmitool exited "@ + status@ + ": "@
            + text::trimmed(text::lossy_text(stderr@)),
    }
}

impl IpmiCache {
    /// Whether there ever was an output.
    pub closed spec fn refreshed(self) -> bool {
        self.ever_refreshed
    }

    /// A cache without temperatures.
    pub fn new() -> (r: IpmiCache)
        ensures
            r@ == Map::<Seq<char>, Binary32>::empty(),
            !r.refreshed(),
    {
        IpmiCache { entries: StringHashMap::new(), ever_refreshed: false }
    }

    /// The arguments with which `ipmitool` has to be run for a refresh.
    pub fn refresh_arguments() -> (r: Vec<String>)
        ensures
            command::argument_texts(r@) == seq!["sdr"@, "type"@, "temperature"@],
    {
        let mut r: Vec<String> = Vec::new();
        r.push("sdr".to_owned());
        r.push("type".to_owned());
        r.push("temperature".to_owned());
        assert(command::argument_texts(r@) =~= seq!["sdr"@, "type"@, "temperature"@]);
        r
    }

    /// Takes in the outcome of `ipmitool`. After a success the temperatures are
    /// those of the output; a failure leaves what there was.
    pub fn refresh(&mut self, outcome: CommandOutcome) -> (r: Result<(), SensorError>)
        ensures
            r is Ok <==> outcome.succeeded(),
            outcome matches CommandOutcome::Exited { success: true, stdout, .. } ==> final(self)@
                == output_table(text::lossy_text(stdout@)) && final(self).refreshed(),
            outcome matches CommandOutcome::Exited { success: true, stdout, .. } ==> (valid_utf8(
                stdout@,
            ) ==> final(self)@ == output_table(decode_utf8(stdout@))),
            r matches Err(e) ==> e is Ipmi && e->Ipmi_0@ == refresh_failure(outcome) && *final(self)
                == *old(self),
            outcome matches CommandOutcome::Exited { success: false, status, stderr, .. } ==> (
            valid_utf8(stderr@) ==> (r matches Err(e) && e is Ipmi && e->Ipmi_0@
                == "ipmitool exited "@ + status@ + ": "@ + text::trimmed(decode_utf8(stderr@)))),
    {
        match outcome {
            CommandOutcome::NotStarted(reason) => {
                let mut message: String = "spawn ipmitool: ".to_owned();
                message.append(reason.as_str());
                Err(SensorError::Ipmi(message))
            },
            CommandOutcome::Exited { success, status, stdout, stderr } => {
                if !success {
                    let raw: String = from_utf8_lossy(&stderr);
                    let mut message: String = "ipmitool exited ".to_owned();
                    message.append(status.as_str());
                    message.append(": ");
                    message.append(trim(raw.as_str()));
                    return Err(SensorError::Ipmi(message));
                }
                let output: String = from_utf8_lossy(&stdout);
                self.entries = parse_sdr(output.as_str());
                self.ever_refreshed = true;
                Ok(())
            },
        }
    }

    /// The temperature of a sensor.
    pub fn get(&self, name: &str) -> (r: Option<Binary32>)
        ensures
            r == if self@.contains_key(name@) {
                Some(self@[name@])
            } else {
                None
            },
    {
        match self.entries.get(name) {
            Some(t) => Some(*t),
            None => None,
        }
    }

    /// A cache with the temperatures that an output gives.
    pub fn from_text(output: &str) -> (r: IpmiCache)
        ensures
            r@ == output_table(output@),
            r.refreshed(),
    {
        IpmiCache { entries: parse_sdr(output), ever_refreshed: true }
    }
}

impl Default for IpmiCache {
    /// A cache without temperatures.
    fn default() -> (r: IpmiCache)
        ensures
            r@ == Map::<Seq<char>, Binary32>::empty(),
            !r.refreshed(),
    {
        IpmiCache::new()
    }
}

/// Whether the row `line` gives a temperature to the sensor `name`.
pub open spec fn gives(line: Seq<char>, name: Seq<char>) -> bool {
    row(line) matches Some((n, t)) && n == name
}

/// A sensor has a temperature exactly where a row gives it one.
pub proof fn law_sensor_needs_row(lines: Seq<Seq<char>>, name: Seq<char>)
    ensures
        table(lines).contains_key(name) <==> exists|i: int|
            0 <= i < lines.len() && #[trigger] gives(lines[i], name),
    decreases lines.len(),
{
    if lines.len() > 0 {
        let front = lines.drop_last();
        let last = lines.len() - 1;
        law_sensor_needs_row(front, name);
        if gives(lines.last(), name) {
            assert(gives(lines[last], name));
        } else {
            if table(lines).contains_key(name) {
                let i = choose|i: int| 0 <= i < front.len() && #[trigger] gives(front[i], name);
                assert(gives(lines[i], name));
            }
            if exists|i: int| 0 <= i < lines.len() && #[trigger] gives(lines[i], name) {
                let i = choose|i: int| 0 <= i < lines.len() && #[trigger] gives(lines[i], name);
                assert(gives(front[i], name));
            }
        }
    }
}

/// Of several rows for a sensor the last one counts: a sensor has the
/// temperature of row `i` where no later row gives it one.
pub proof fn law_last_row_counts(lines: Seq<Seq<char>>, name: Seq<char>, t: Binary32, i: int)
    requires
        0 <= i < lines.len(),
        row(lines[i]) == Some((name, t)),
        forall|j: int| i < j < lines.len() ==> !(#[trigger] gives(lines[j], name)),
    ensures
        table(lines).contains_key(name),
        table(lines)[name] == t,
    decreases lines.len(),
{
    let front = lines.drop_last();
    let last = lines.len() - 1;
    if i < last {
        assert(!gives(lines[last], name));
        assert forall|j: int| i < j < front.len() implies !(#[trigger] gives(front[j], name)) by {
            assert(!gives(lines[j], name));
        }
        law_last_row_counts(front, name, t, i);
    }
}

/// A number, followed by `degrees C`, is read as that number.
pub proof fn law_temperature(number: Seq<char>)
    requires
        number.len() > 0,
        forall|i: int| 0 <= i < number.len() ==> !text::white_space(#[trigger] number[i]),
    ensures
        temperature(number + " degrees C"@) == numeral::numeral(number),
{
    reveal_strlit(" degrees C");
    reveal_strlit("degrees");
    reveal_strlit("C");
    let unit = "degrees"@.push(' ') + "C"@;
    assert(number + " degrees C"@ =~= number.push(' ') + unit);
    text::law_words_parted(number, ' ', unit);
    text::law_words_parted("degrees"@, ' ', "C"@);
    text::law_words_run(number);
    text::law_words_run("degrees"@);
    text::law_words_run("C"@);
    assert(text::words(number + " degrees C"@) =~= seq![number, "degrees"@, "C"@]);
}

/// Nothing else is read as a temperature: its words are a number, `degrees` and
/// `C`.
pub proof fn law_temperature_only(value: Seq<char>)
    ensures
        temperature(value) is Some ==> exists|number: Seq<char>|
            numeral::numeral(number) == temperature(value) && text::words(value) == #[trigger] seq![
                number,
                "degrees"@,
                "C"@,
            ],
{
    if temperature(value) is Some {
        let words = text::words(value);
        assert(words =~= seq![words[0], "degrees"@, "C"@]);
    }
}

/// A row gives a temperature exactly where it has five fields or more between
/// bars, the third is `ok` in either case, and the fifth is a temperature; that
/// is then the temperature of the sensor that the first field names. White space
/// around a field makes no difference.
pub proof fn law_row(line: Seq<char>)
    ensures
        ({
            let fields = text::pieces(line, '|');
            &&& row(line) is Some <==> fields.len() >= 5 && text::same_but_case(
                text::trimmed(fields[2]),
                "ok"@,
            ) && temperature(text::trimmed(fields[4])) is Some
            &&& row(line) matches Some((name, t)) ==> name == text::trimmed(fields[0]) && Some(t)
                == temperature(text::trimmed(fields[4]))
        }),
{
    text::law_pieces_trimmed(line, '|');
    let a = text::pieces(line, '|');
    let b = text::pieces(text::trimmed(line), '|');
    if a.len() >= 5 {
        assert(text::trimmed(a[0]) == text::trimmed(b[0]));
        assert(text::trimmed(a[2]) == text::trimmed(b[2]));
        assert(text::trimmed(a[4]) == text::trimmed(b[4]));
    }
}

/// The rows of an output are its lines, each of which counts.
pub proof fn law_output(output: Seq<char>, name: Seq<char>)
    ensures
        ({
            let lines = text::pieces(output, '\n');
            &&& text::joined(lines, '\n') == output
            &&& output_table(output).contains_key(name) <==> exists|i: int|
                0 <= i < lines.len() && #[trigger] gives(lines[i], name)
            &&& forall|i: int|
                0 <= i < lines.len() && #[trigger] gives(lines[i], name) && (forall|j: int|
                    i < j < lines.len() ==> !(#[trigger] gives(lines[j], name))) ==> Some(
                    (name, output_table(output)[name]),
                ) == row(lines[i])
        }),
{
    let lines = text::pieces(output, '\n');
    text::law_pieces(output, '\n');
    law_sensor_needs_row(lines, name);
    assert forall|i: int|
        0 <= i < lines.len() && #[trigger] gives(lines[i], name) && (forall|j: int|
            i < j < lines.len() ==> !(#[trigger] gives(lines[j], name))) implies Some(
        (name, output_table(output)[name]),
    ) == row(lines[i]) by {
        let (n, t) = row(lines[i])->0;
        law_last_row_counts(lines, name, t, i);
    }
}

/// However they are spaced, a number, `degrees` and `C` are read as that number.
pub proof fn law_temperature_spaced(value: Seq<char>, number: Seq<char>)
    requires
        text::words(value) == seq![number, "degrees"@, "C"@],
    ensures
        temperature(value) == numeral::numeral(number),
{
}

} // verus!
