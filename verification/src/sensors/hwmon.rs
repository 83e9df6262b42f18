//! Temperatures from `/sys/class/hwmon`.
//!
//! Every directory there whose `name` file holds the configured chip is looked
//! through for files `tempN_input`; one counts where the file `tempN_label`
//! beside it holds the configured label, which may end in a `*` as a wildcard.
//! The values are whole millidegrees.
//!
//! The functions here work on what was read from there: a [`HwmonEntry`] for
//! each entry of the directory, and in it a [`HwmonFile`] for each of its files.
//! Not everything has to be read (see [`law_uncounted_unread`]).

use vstd::prelude::*;
use vstd::string::*;
use vstd::utf8::*;
use crate::binary32::{self, Binary32};
use crate::listing::{self, in_order};
use crate::numeral::{self, parse_integer};
use crate::sensors::{self, Reading, SensorError, SensorReading};
use crate::text::{self, ends_with, from_utf8, replace, same_text, starts_with, trim};

verus! {

/// Where the chips are found.
pub const HWMON_ROOT: &'static str = "/sys/class/hwmon";

/// A file of a chip.
#[derive(Debug)]
pub struct HwmonFile {
    /// The file's name.
    pub file_name: Vec<u8>,
    /// What the label file beside it holds; `None` where it cannot be read.
    pub label: Option<String>,
    /// What it holds, or why it cannot be read.
    pub input: Result<String, String>,
}

/// An entry of the directory of chips.
#[derive(Debug)]
pub struct HwmonEntry {
    /// The entry's name.
    pub file_name: Vec<u8>,
    /// The entry's path, in writing.
    pub path: String,
    pub is_dir: bool,
    /// What the file `name` in it holds; `None` where it cannot be read.
    pub name: Option<String>,
    /// The files in it; `None` where it cannot be listed.
    pub files: Option<Vec<HwmonFile>>,
}

// ---------------------------------------------------------------------------
// Names and labels
// ---------------------------------------------------------------------------

/// Whether `name` is that of a temperature's file.
pub open spec fn temp_input(name: Seq<char>) -> bool {
    "temp"@.is_prefix_of(name) && "_input"@.is_suffix_of(name)
}

/// Whether `actual` is the label `pattern`, or, where that ends in `*`, starts
/// with what stands before the `*`.
pub open spec fn fits(actual: Seq<char>, pattern: Seq<char>) -> bool {
    if pattern.len() > 0 && pattern.last() == '*' {
        pattern.drop_last().is_prefix_of(actual)
    } else {
        actual == pattern
    }
}

/// Whether the chip whose `name` file holds `name` is `chip`.
pub open spec fn chip_fits(name: Option<String>, chip: Seq<char>) -> bool {
    name matches Some(n) && text::trimmed(n@) == chip
}

/// The label of a temperature: what its label file holds, or the chip's name
/// where there is none.
pub open spec fn label_of(label: Option<String>, chip: Seq<char>) -> Seq<char> {
    match label {
        Some(l) => text::trimmed(l@),
        None => chip,
    }
}

/// Whether `name` is that of a temperature's file.
pub fn is_temp_input(name: &str) -> (r: bool)
    ensures
        r == temp_input(name@),
{
    starts_with(name, "temp") && ends_with(name, "_input")
}

/// The name of the label file beside the temperature's file `name`.
pub fn label_path_for(name: &str) -> (r: String)
    ensures
        r@ == text::replaced(name@, "_input"@, "_label"@),
{
    proof {
        reveal_strlit("_input");
    }
    replace(name, "_input", "_label")
}

/// Whether a label matches: a trailing `*` is a wildcard, else it has to be the
/// same.
pub fn label_matches(actual: &str, pattern: &str) -> (r: bool)
    ensures
        r == fits(actual@, pattern@),
{
    let n: usize = pattern.unicode_len();
    if n > 0 && pattern.get_char(n - 1) == '*' {
        assert(pattern@.subrange(0, n - 1) =~= pattern@.drop_last());
        starts_with(actual, pattern.substring_char(0, n - 1))
    } else {
        same_text(actual, pattern)
    }
}

/// Whether the chip whose `name` file holds `name` is `chip`.
pub fn chip_matches(name: &Option<String>, chip: &str) -> (r: bool)
    ensures
        r == chip_fits(*name, chip@),
{
    match name {
        Some(n) => same_text(trim(n.as_str()), chip),
        None => false,
    }
}

/// The label of a temperature: what its label file holds, or the chip's name
/// where there is none.
pub fn actual_label(label: &Option<String>, chip: &str) -> (r: String)
    ensures
        r@ == label_of(*label, chip@),
{
    match label {
        Some(l) => trim(l.as_str()).to_owned(),
        None => chip.to_owned(),
    }
}

// ---------------------------------------------------------------------------
// Readings
// ---------------------------------------------------------------------------

/// The name of a chip's directory, for logs.
pub open spec fn directory_id(file_name: Seq<u8>) -> Seq<char> {
    if valid_utf8(file_name) {
        decode_utf8(file_name)
    } else {
        "hwmon?"@
    }
}

/// The temperature of `millidegrees`, in degrees.
pub open spec fn degrees(millidegrees: int) -> Binary32 {
    binary32::of_int(millidegrees).quotient(binary32::of_int(1000))
}

/// What a file gives: a reading; nothing, where it holds no temperature or its
/// label does not match; or the reason why its temperature cannot be had.
pub open spec fn file_reading(
    dir: HwmonEntry,
    file: HwmonFile,
    chip: Seq<char>,
    pattern: Seq<char>,
) -> Result<Option<Reading>, Seq<char>> {
    let name = decode_utf8(file.file_name@);
    let label = label_of(file.label, chip);
    let path = dir.path@ + "/"@ + name;
    if !valid_utf8(file.file_name@) || !temp_input(name) || !fits(label, pattern) {
        Ok(None)
    } else {
        match file.input {
            Err(reason) => Err("read("@ + path + "): "@ + reason@),
            Ok(raw) => match numeral::integer(text::trimmed(raw@)) {
                Err(fault) => Err("parse temp "@ + path + ": "@ + fault.words()),
                Ok(millidegrees) => Ok(
                    Some(
                        Reading {
                            label: directory_id(dir.file_name@) + "/"@ + label,
                            temp_c: degrees(millidegrees),
                        },
                    ),
                ),
            },
        }
    }
}

/// The names of the files.
pub open spec fn file_names(files: Seq<HwmonFile>) -> Seq<Seq<u8>> {
    Seq::new(files.len(), |i: int| files[i].file_name@)
}

/// What the files with the numbers in `order` give, up to the first failure.
pub open spec fn file_readings(
    dir: HwmonEntry,
    files: Seq<HwmonFile>,
    order: Seq<int>,
    chip: Seq<char>,
    pattern: Seq<char>,
) -> Result<Seq<Reading>, Seq<char>>
    decreases order.len(),
{
    if order.len() == 0 {
        Ok(Seq::empty())
    } else {
        match file_readings(dir, files, order.drop_last(), chip, pattern) {
            Err(reason) => Err(reason),
            Ok(before) => match file_reading(dir, files[order.last()], chip, pattern) {
                Err(reason) => Err(reason),
                Ok(None) => Ok(before),
                Ok(Some(reading)) => Ok(before.push(reading)),
            },
        }
    }
}

/// What an entry gives: the readings of its files in the order of their names,
/// or nothing, where it is not the directory of a chip of this name.
pub open spec fn entry_readings(dir: HwmonEntry, chip: Seq<char>, pattern: Seq<char>) -> Result<
    Seq<Reading>,
    Seq<char>,
> {
    if !dir.is_dir || !chip_fits(dir.name, chip) {
        Ok(Seq::empty())
    } else {
        match dir.files {
            None => Ok(Seq::empty()),
            Some(files) => file_readings(
                dir,
                files@,
                listing::visit_order(file_names(files@), files@.len()),
                chip,
                pattern,
            ),
        }
    }
}

/// The names of the entries.
pub open spec fn entry_names(entries: Seq<HwmonEntry>) -> Seq<Seq<u8>> {
    Seq::new(entries.len(), |i: int| entries[i].file_name@)
}

/// What the entries with the numbers in `order` give, up to the first failure.
pub open spec fn entries_readings(
    entries: Seq<HwmonEntry>,
    order: Seq<int>,
    chip: Seq<char>,
    pattern: Seq<char>,
) -> Result<Seq<Reading>, Seq<char>>
    decreases order.len(),
{
    if order.len() == 0 {
        Ok(Seq::empty())
    } else {
        match entries_readings(entries, order.drop_last(), chip, pattern) {
            Err(reason) => Err(reason),
            Ok(before) => match entry_readings(entries[order.last()], chip, pattern) {
                Err(reason) => Err(reason),
                Ok(readings) => Ok(before + readings),
            },
        }
    }
}

/// The readings that the directory `root` of chips gives, in the order of the
/// entries' names, or why they cannot be had. `entries` is what `root` holds, or
/// the reason why it cannot be listed.
pub open spec fn scan(
    root: Seq<char>,
    entries: Result<Vec<HwmonEntry>, String>,
    chip: Seq<char>,
    pattern: Seq<char>,
) -> Result<Seq<Reading>, Seq<char>> {
    match entries {
        Err(reason) => Err("read_dir("@ + root + "): "@ + reason@),
        Ok(v) => entries_readings(
            v@,
            listing::visit_order(entry_names(v@), v@.len()),
            chip,
            pattern,
        ),
    }
}

/// `start`, `path`, `middle` and `reason` in one text.
fn failure(start: &str, path: &str, middle: &str, reason: &str) -> (r: String)
    ensures
        r@ == start@ + path@ + middle@ + reason@,
{
    let mut r: String = start.to_owned();
    r.append(path);
    r.append(middle);
    r.append(reason);
    r
}

/// A copy of the bytes.
fn copy_bytes(bytes: &Vec<u8>) -> (r: Vec<u8>)
    ensures
        r@ == bytes@,
{
    let mut r: Vec<u8> = Vec::new();
    let n: usize = bytes.len();
    for i in 0..n
        invariant
            n == bytes@.len(),
            r@ =~= bytes@.take(i as int),
    {
        r.push(bytes[i]);
    }
    assert(bytes@.take(n as int) =~= bytes@);
    r
}

/// Reads one file.
fn read_file(dir: &HwmonEntry, file: &HwmonFile, chip: &str, pattern: &str) -> (r: Result<
    Option<SensorReading>,
    String,
>)
    ensures
        match file_reading(*dir, *file, chip@, pattern@) {
            Err(reason) => r matches Err(e) && e@ == reason,
            Ok(None) => r matches Ok(None),
            Ok(Some(reading)) => r matches Ok(Some(s)) && s@ == reading,
        },
{
    let name: String = match from_utf8(copy_bytes(&file.file_name)) {
        Some(n) => n,
        None => {
            return Ok(None);
        },
    };
    if !is_temp_input(name.as_str()) {
        return Ok(None);
    }
    let label: String = actual_label(&file.label, chip);
    if !label_matches(label.as_str(), pattern) {
        return Ok(None);
    }
    let mut path: String = dir.path.clone();
    path.append("/");
    path.append(name.as_str());
    match &file.input {
        Err(reason) => Err(failure("read(", path.as_str(), "): ", reason.as_str())),
        Ok(raw) => match parse_integer(trim(raw.as_str())) {
            Err(fault) => Err(failure("parse temp ", path.as_str(), ": ", fault.text())),
            Ok(millidegrees) => {
                let mut id: String = match from_utf8(copy_bytes(&dir.file_name)) {
                    Some(text) => text,
                    None => "hwmon?".to_owned(),
                };
                id.append("/");
                id.append(label.as_str());
                let temp_c: Binary32 = Binary32::from_i64(millidegrees).over(
                    Binary32::from_i64(1000),
                );
                Ok(Some(SensorReading { label: id, temp_c }))
            },
        },
    }
}

/// Reads the files of one entry.
fn read_entry(dir: &HwmonEntry, chip: &str, pattern: &str) -> (r: Result<
    Vec<SensorReading>,
    String,
>)
    ensures
        match entry_readings(*dir, chip@, pattern@) {
            Err(reason) => r matches Err(e) && e@ == reason,
            Ok(readings) => r matches Ok(v) && sensors::readings_view(v@) == readings,
        },
{
    let mut out: Vec<SensorReading> = Vec::new();
    assert(sensors::readings_view(out@) =~= Seq::empty());
    if !dir.is_dir || !chip_matches(&dir.name, chip) {
        return Ok(out);
    }
    let files: &Vec<HwmonFile> = match &dir.files {
        Some(files) => files,
        None => {
            return Ok(out);
        },
    };
    let mut names: Vec<Vec<u8>> = Vec::new();
    let n: usize = files.len();
    for i in 0..n
        invariant
            n == files@.len(),
            listing::byte_views(names@) =~= file_names(files@).take(i as int),
    {
        let ghost before = names@;
        names.push(copy_bytes(&files[i].file_name));
        assert(listing::byte_views(names@) =~= listing::byte_views(before).push(names@.last()@));
    }
    assert(file_names(files@).take(n as int) =~= file_names(files@));
    assert(listing::byte_views(names@).len() == names@.len());
    let order: Vec<usize> = in_order(&names);
    let ghost all = listing::as_ints(order@);
    assert(all.take(0) =~= Seq::empty());
    for i in 0..n
        invariant
            n == files@.len(),
            n == order@.len(),
            forall|j: int| 0 <= j < order@.len() ==> (#[trigger] order@[j]) < n,
            all == listing::as_ints(order@),
            dir.is_dir,
            chip_fits(dir.name, chip@),
            dir.files == Some(*files),
            all == listing::visit_order(file_names(files@), files@.len()),
            file_readings(*dir, files@, all.take(i as int), chip@, pattern@) == Ok::<
                Seq<Reading>,
                Seq<char>,
            >(sensors::readings_view(out@)),
    {
        assert(all.take(i as int + 1).drop_last() =~= all.take(i as int));
        assert(all.take(i as int + 1).last() == order@[i as int]);
        match read_file(dir, &files[order[i]], chip, pattern) {
            Err(reason) => {
                proof {
                    lemma_file_failure_stays(*dir, files@, all, chip@, pattern@, i as nat + 1);
                }
                return Err(reason);
            },
            Ok(None) => {},
            Ok(Some(reading)) => {
                let ghost before = out@;
                out.push(reading);
                assert(sensors::readings_view(out@) =~= sensors::readings_view(before).push(
                    reading@,
                ));
            },
        }
    }
    assert(all.take(n as int) =~= all);
    Ok(out)
}

proof fn lemma_file_failure_stays(
    dir: HwmonEntry,
    files: Seq<HwmonFile>,
    order: Seq<int>,
    chip: Seq<char>,
    pattern: Seq<char>,
    n: nat,
)
    requires
        n <= order.len(),
        file_readings(dir, files, order.take(n as int), chip, pattern) is Err,
    ensures
        file_readings(dir, files, order, chip, pattern) == file_readings(
            dir,
            files,
            order.take(n as int),
            chip,
            pattern,
        ),
    decreases order.len(),
{
    if n < order.len() {
        assert(order.drop_last().take(n as int) =~= order.take(n as int));
        lemma_file_failure_stays(dir, files, order.drop_last(), chip, pattern, n);
    } else {
        assert(order.take(n as int) =~= order);
    }
}

proof fn lemma_entry_failure_stays(
    entries: Seq<HwmonEntry>,
    order: Seq<int>,
    chip: Seq<char>,
    pattern: Seq<char>,
    n: nat,
)
    requires
        n <= order.len(),
        entries_readings(entries, order.take(n as int), chip, pattern) is Err,
    ensures
        entries_readings(entries, order, chip, pattern) == entries_readings(
            entries,
            order.take(n as int),
            chip,
            pattern,
        ),
    decreases order.len(),
{
    if n < order.len() {
        assert(order.drop_last().take(n as int) =~= order.take(n as int));
        lemma_entry_failure_stays(entries, order.drop_last(), chip, pattern, n);
    } else {
        assert(order.take(n as int) =~= order);
    }
}

/// The readings of the chips with the name `chip` and a label that matches
/// `label`, from the directory `root`. `entries` is what `root` holds, or the
/// reason why it cannot be listed.
pub fn read_from(
    root: &str,
    entries: &Result<Vec<HwmonEntry>, String>,
    chip: &str,
    label: &str,
) -> (r: Result<Vec<SensorReading>, SensorError>)
    ensures
        match scan(root@, *entries, chip@, label@) {
            Err(reason) => r matches Err(e) && e is Hwmon && e->Hwmon_0@ == reason,
            Ok(readings) => r matches Ok(v) && sensors::readings_view(v@) == readings,
        },
{
    let list: &Vec<HwmonEntry> = match entries {
        Err(reason) => {
            return Err(SensorError::Hwmon(failure("read_dir(", root, "): ", reason.as_str())));
        },
        Ok(list) => list,
    };
    let mut names: Vec<Vec<u8>> = Vec::new();
    let n: usize = list.len();
    for i in 0..n
        invariant
            n == list@.len(),
            listing::byte_views(names@) =~= entry_names(list@).take(i as int),
    {
        let ghost before = names@;
        names.push(copy_bytes(&list[i].file_name));
        assert(listing::byte_views(names@) =~= listing::byte_views(before).push(names@.last()@));
    }
    assert(entry_names(list@).take(n as int) =~= entry_names(list@));
    assert(listing::byte_views(names@).len() == names@.len());
    let order: Vec<usize> = in_order(&names);
    let ghost all = listing::as_ints(order@);
    let mut out: Vec<SensorReading> = Vec::new();
    assert(all.take(0) =~= Seq::empty());
    assert(sensors::readings_view(out@) =~= Seq::empty());
    for i in 0..n
        invariant
            n == list@.len(),
            n == order@.len(),
            forall|j: int| 0 <= j < order@.len() ==> (#[trigger] order@[j]) < n,
            all == listing::as_ints(order@),
            *entries == Ok::<Vec<HwmonEntry>, String>(*list),
            all == listing::visit_order(entry_names(list@), list@.len()),
            entries_readings(list@, all.take(i as int), chip@, label@) == Ok::<
                Seq<Reading>,
                Seq<char>,
            >(sensors::readings_view(out@)),
    {
        assert(all.take(i as int + 1).drop_last() =~= all.take(i as int));
        assert(all.take(i as int + 1).last() == order@[i as int]);
        match read_entry(&list[order[i]], chip, label) {
            Err(reason) => {
                proof {
                    lemma_entry_failure_stays(list@, all, chip@, label@, i as nat + 1);
                }
                return Err(SensorError::Hwmon(reason));
            },
            Ok(mut readings) => {
                let ghost before = out@;
                let ghost more = readings@;
                out.append(&mut readings);
                assert(sensors::readings_view(out@) =~= sensors::readings_view(before)
                    + sensors::readings_view(more));
            },
        }
    }
    assert(all.take(n as int) =~= all);
    Ok(out)
}

/// [`read_from`] for the system's own directory of chips.
pub fn read_default(entries: &Result<Vec<HwmonEntry>, String>, chip: &str, label: &str) -> (r:
    Result<Vec<SensorReading>, SensorError>)
    ensures
        match scan(HWMON_ROOT@, *entries, chip@, label@) {
            Err(reason) => r matches Err(e) && e is Hwmon && e->Hwmon_0@ == reason,
            Ok(readings) => r matches Ok(v) && sensors::readings_view(v@) == readings,
        },
{
    read_from(HWMON_ROOT, entries, chip, label)
}

// ---------------------------------------------------------------------------
// Laws
// ---------------------------------------------------------------------------

/// Whether a file counts: it holds a temperature, and its label matches.
pub open spec fn counts(file: HwmonFile, chip: Seq<char>, pattern: Seq<char>) -> bool {
    valid_utf8(file.file_name@) && temp_input(decode_utf8(file.file_name@)) && fits(
        label_of(file.label, chip),
        pattern,
    )
}

/// Whether an entry counts: it is the directory of a chip of this name.
pub open spec fn entry_counts(entry: HwmonEntry, chip: Seq<char>) -> bool {
    entry.is_dir && chip_fits(entry.name, chip) && entry.files is Some
}

/// What a file holds, or why it cannot be read.
pub open spec fn content(file: HwmonFile) -> Result<Seq<char>, Seq<char>> {
    match file.input {
        Ok(raw) => Ok(raw@),
        Err(reason) => Err(reason@),
    }
}

/// Whether two files of the same name differ at most in what does not count.
pub open spec fn same_file(
    a: HwmonFile,
    b: HwmonFile,
    chip: Seq<char>,
    pattern: Seq<char>,
) -> bool {
    &&& a.file_name@ == b.file_name@
    &&& counts(a, chip, pattern) == counts(b, chip, pattern)
    &&& counts(a, chip, pattern) ==> label_of(a.label, chip) == label_of(b.label, chip) && content(
        a,
    ) == content(b)
}

/// Whether the files of two directories differ at most in what does not count.
pub open spec fn same_files(
    a: Seq<HwmonFile>,
    b: Seq<HwmonFile>,
    chip: Seq<char>,
    pattern: Seq<char>,
) -> bool {
    &&& a.len() == b.len()
    &&& forall|i: int|
        #![trigger a[i]]
        #![trigger b[i]]
        0 <= i < a.len() ==> same_file(a[i], b[i], chip, pattern)
}

/// Whether two entries of the same name differ at most in what does not count.
pub open spec fn same_entry(
    a: HwmonEntry,
    b: HwmonEntry,
    chip: Seq<char>,
    pattern: Seq<char>,
) -> bool {
    &&& a.file_name@ == b.file_name@
    &&& entry_counts(a, chip) == entry_counts(b, chip)
    &&& entry_counts(a, chip) ==> a.path@ == b.path@ && same_files(
        a.files->0@,
        b.files->0@,
        chip,
        pattern,
    )
}

/// Whether two listings differ at most in what does not count.
pub open spec fn same_entries(
    a: Seq<HwmonEntry>,
    b: Seq<HwmonEntry>,
    chip: Seq<char>,
    pattern: Seq<char>,
) -> bool {
    &&& a.len() == b.len()
    &&& forall|i: int|
        #![trigger a[i]]
        #![trigger b[i]]
        0 <= i < a.len() ==> same_entry(a[i], b[i], chip, pattern)
}

proof fn lemma_same_files(
    x: HwmonEntry,
    y: HwmonEntry,
    a: Seq<HwmonFile>,
    b: Seq<HwmonFile>,
    order: Seq<int>,
    chip: Seq<char>,
    pattern: Seq<char>,
)
    requires
        x.path@ == y.path@,
        x.file_name@ == y.file_name@,
        same_files(a, b, chip, pattern),
        forall|i: int| 0 <= i < order.len() ==> 0 <= #[trigger] order[i] < a.len(),
    ensures
        file_readings(x, a, order, chip, pattern) == file_readings(y, b, order, chip, pattern),
    decreases order.len(),
{
    if order.len() > 0 {
        let front = order.drop_last();
        assert forall|i: int| 0 <= i < front.len() implies 0 <= #[trigger] front[i] < a.len() by {
            assert(front[i] == order[i]);
        }
        lemma_same_files(x, y, a, b, front, chip, pattern);
        let k = order[order.len() - 1];
        assert(same_file(a[k], b[k], chip, pattern));
    }
}

proof fn lemma_same_entry(x: HwmonEntry, y: HwmonEntry, chip: Seq<char>, pattern: Seq<char>)
    requires
        same_entry(x, y, chip, pattern),
    ensures
        entry_readings(x, chip, pattern) == entry_readings(y, chip, pattern),
{
    if entry_counts(x, chip) {
        let a = x.files->0@;
        let b = y.files->0@;
        assert forall|i: int| 0 <= i < a.len() implies file_names(a)[i] == file_names(b)[i] by {
            assert(same_file(a[i], b[i], chip, pattern));
        }
        assert(file_names(a) =~= file_names(b));
        listing::law_visit_order(file_names(a), a.len());
        lemma_same_files(
            x,
            y,
            a,
            b,
            listing::visit_order(file_names(a), a.len()),
            chip,
            pattern,
        );
    }
}

proof fn lemma_same_entries(
    a: Seq<HwmonEntry>,
    b: Seq<HwmonEntry>,
    order: Seq<int>,
    chip: Seq<char>,
    pattern: Seq<char>,
)
    requires
        same_entries(a, b, chip, pattern),
        forall|i: int| 0 <= i < order.len() ==> 0 <= #[trigger] order[i] < a.len(),
    ensures
        entries_readings(a, order, chip, pattern) == entries_readings(b, order, chip, pattern),
    decreases order.len(),
{
    if order.len() > 0 {
        let front = order.drop_last();
        assert forall|i: int| 0 <= i < front.len() implies 0 <= #[trigger] front[i] < a.len() by {
            assert(front[i] == order[i]);
        }
        lemma_same_entries(a, b, front, chip, pattern);
        let k = order[order.len() - 1];
        lemma_same_entry(a[k], b[k], chip, pattern);
    }
}

/// What does not count makes no difference: two listings give the same that
/// differ only in what the directories of other chips hold, and in what there is
/// to files that hold no temperature or have another label.
pub proof fn law_uncounted_unread(
    root: Seq<char>,
    a: Vec<HwmonEntry>,
    b: Vec<HwmonEntry>,
    chip: Seq<char>,
    pattern: Seq<char>,
)
    requires
        same_entries(a@, b@, chip, pattern),
    ensures
        scan(root, Ok(a), chip, pattern) == scan(root, Ok(b), chip, pattern),
{
    assert forall|i: int| 0 <= i < a@.len() implies entry_names(a@)[i] == entry_names(b@)[i] by {
        assert(same_entry(a@[i], b@[i], chip, pattern));
    }
    assert(entry_names(a@) =~= entry_names(b@));
    listing::law_visit_order(entry_names(a@), a@.len());
    lemma_same_entries(
        a@,
        b@,
        listing::visit_order(entry_names(a@), a@.len()),
        chip,
        pattern,
    );
}

/// Whether two listings differ at most in what the directories of other chips
/// hold.
pub open spec fn same_but_other_chips(
    a: Seq<HwmonEntry>,
    b: Seq<HwmonEntry>,
    chip: Seq<char>,
) -> bool {
    &&& a.len() == b.len()
    &&& forall|i: int|
        #![trigger a[i]]
        #![trigger b[i]]
        0 <= i < a.len() ==> a[i] == b[i] || (a[i].file_name@ == b[i].file_name@ && !chip_fits(
            a[i].name,
            chip,
        ) && !chip_fits(b[i].name, chip))
}

/// What the directories of other chips hold makes no difference.
pub proof fn law_other_chips_unread(
    root: Seq<char>,
    a: Vec<HwmonEntry>,
    b: Vec<HwmonEntry>,
    chip: Seq<char>,
    pattern: Seq<char>,
)
    requires
        same_but_other_chips(a@, b@, chip),
    ensures
        scan(root, Ok(a), chip, pattern) == scan(root, Ok(b), chip, pattern),
{
    assert forall|i: int|
        #![trigger a@[i]]
        #![trigger b@[i]]
        0 <= i < a@.len() implies same_entry(a@[i], b@[i], chip, pattern) by {}
    law_uncounted_unread(root, a, b, chip, pattern);
}

/// Whether two directories differ at most in what their files of other labels
/// hold.
pub open spec fn same_but_other_labels(
    a: HwmonEntry,
    b: HwmonEntry,
    chip: Seq<char>,
    pattern: Seq<char>,
) -> bool {
    &&& a.file_name@ == b.file_name@
    &&& a.path@ == b.path@
    &&& a.is_dir == b.is_dir
    &&& a.name == b.name
    &&& match (a.files, b.files) {
        (Some(x), Some(y)) => x@.len() == y@.len() && forall|i: int|
            #![trigger x@[i]]
            #![trigger y@[i]]
            0 <= i < x@.len() ==> x@[i].file_name@ == y@[i].file_name@ && x@[i].label == y@[i].label
                && (x@[i].input == y@[i].input || !fits(label_of(x@[i].label, chip), pattern)),
        (None, None) => true,
        _ => false,
    }
}

/// What the files of other labels hold makes no difference.
pub proof fn law_other_labels_unread(
    root: Seq<char>,
    a: Vec<HwmonEntry>,
    b: Vec<HwmonEntry>,
    chip: Seq<char>,
    pattern: Seq<char>,
)
    requires
        a@.len() == b@.len(),
        forall|i: int|
            #![trigger a@[i]]
            #![trigger b@[i]]
            0 <= i < a@.len() ==> same_but_other_labels(a@[i], b@[i], chip, pattern),
    ensures
        scan(root, Ok(a), chip, pattern) == scan(root, Ok(b), chip, pattern),
{
    assert forall|i: int|
        #![trigger a@[i]]
        #![trigger b@[i]]
        0 <= i < a@.len() implies same_entry(a@[i], b@[i], chip, pattern) by {
        assert(same_but_other_labels(a@[i], b@[i], chip, pattern));
    }
    law_uncounted_unread(root, a, b, chip, pattern);
}

/// A file that is not a temperature's gives nothing, whatever it holds.
pub proof fn law_other_files_ignored(
    dir: HwmonEntry,
    file: HwmonFile,
    chip: Seq<char>,
    pattern: Seq<char>,
)
    requires
        !temp_input(decode_utf8(file.file_name@)),
    ensures
        file_reading(dir, file, chip, pattern) == Ok::<Option<Reading>, Seq<char>>(None),
{
}

/// A chip without a label file is matched by its own name.
pub proof fn law_missing_label(file: HwmonFile, chip: Seq<char>)
    requires
        file.label is None,
    ensures
        fits(label_of(file.label, chip), chip),
{
}

/// A label with a trailing `*` matches exactly the labels that start with what
/// stands before it.
pub proof fn law_wildcard(actual: Seq<char>, prefix: Seq<char>)
    ensures
        fits(actual, prefix.push('*')) <==> prefix.is_prefix_of(actual),
{
    assert(prefix.push('*').drop_last() =~= prefix);
}

/// What is rounded from no more than two to the power 63 is finite.
proof fn lemma_long_finite(num: nat, den: nat)
    requires
        den > 0,
        num <= 0x8000_0000_0000_0000 * binary32::one() * den,
    ensures
        binary32::nearest(num, den) < binary32::INFINITY_MAGNITUDE,
{
    let one = binary32::one();
    let mag: nat = 190 * 0x80_0000;
    let bound = 0x8000_0000_0000_0000 * one;
    vstd::arithmetic::power2::lemma2_to64();
    vstd::arithmetic::power2::lemma2_to64_rest();
    vstd::arithmetic::power2::lemma_pow2_adds(23, 189);
    vstd::arithmetic::power2::lemma_pow2_adds(63, 149);
    assert(binary32::units(mag) == 0x80_0000 * vstd::arithmetic::power2::pow2(189));
    assert(binary32::units(mag) == bound);
    binary32::lemma_nearest_exact(bound * den, den, mag);
    assert(num * den <= (bound * den) * den) by (nonlinear_arith)
        requires
            num <= bound * den,
    ;
    binary32::lemma_nearest_ordered(num, den, bound * den, den);
}

/// A temperature in degrees is a thousandth of its millidegrees, up to one part
/// in four million.
pub proof fn law_degrees(millidegrees: int)
    requires
        i64::MIN <= millidegrees <= i64::MAX,
    ensures
        degrees(millidegrees).is_finite(),
        4_000_000 * binary32::absolute(
            1000 * degrees(millidegrees).scaled() - millidegrees * binary32::one(),
        ) <= binary32::absolute(millidegrees) * binary32::one(),
{
    let one = binary32::one();
    let size = binary32::absolute(millidegrees);
    let exact = size * one;
    vstd::arithmetic::power2::lemma2_to64();
    vstd::arithmetic::power2::lemma_pow2_strictly_increases(32, 149);
    assert(binary32::units(0) == 0);
    // The millidegrees in single precision.
    assert(exact <= 0x8000_0000_0000_0000 * one * 1) by (nonlinear_arith)
        requires
            exact == size * one,
            size <= 0x8000_0000_0000_0000,
    ;
    lemma_long_finite(exact, 1);
    binary32::lemma_nearest_error(exact, 1);
    let mag = binary32::nearest(exact, 1);
    binary32::lemma_signed(millidegrees < 0, mag);
    let x = binary32::of_int(millidegrees);
    let u = binary32::units(mag);
    // A thousand in single precision.
    binary32::lemma_whole_exact(1000, 9);
    let thousand = binary32::of_int(1000);
    let w = binary32::units(thousand.magnitude());
    assert(w == 1000 * one);
    // Their quotient.
    let num = u * one;
    assert(u <= 2 * exact);
    assert(num <= 0x8000_0000_0000_0000 * one * w) by (nonlinear_arith)
        requires
            num == u * one,
            u <= 2 * exact,
            exact <= 0x8000_0000_0000_0000 * one,
            w == 1000 * one,
            one > 0,
    ;
    lemma_long_finite(num, w);
    binary32::lemma_nearest_error(num, w);
    let quotient = binary32::nearest(num, w);
    binary32::lemma_signed(x.negative(), quotient);
    let v = binary32::units(quotient);
    assert(degrees(millidegrees) == binary32::signed(millidegrees < 0, quotient));
    let off = binary32::absolute(1000 * v - u);
    assert(v * w - num == (1000 * v - u) * one) by (nonlinear_arith)
        requires
            num == u * one,
            w == 1000 * one,
    ;
    assert(binary32::absolute(v * w - num) == off * one) by (nonlinear_arith)
        requires
            v * w - num == (1000 * v - u) * one,
            off == binary32::absolute(1000 * v - u),
            one > 0,
    ;
    if 2 * (off * one) <= w {
        assert(off <= 500) by (nonlinear_arith)
            requires
                2 * (off * one) <= 1000 * one,
                one > 0,
        ;
    } else {
        assert(0x100_0000 * off <= 1000 * v) by (nonlinear_arith)
            requires
                0x100_0000 * (off * one) <= v * w,
                w == 1000 * one,
                one > 0,
        ;
    }
    if size == 0 {
        assert(exact == 0) by (nonlinear_arith)
            requires
                exact == size * one,
                size == 0,
        ;
        assert(u == 0);
        assert(0 * one == 0) by (nonlinear_arith);
        binary32::lemma_nearest_exact(0, w, 0);
    } else {
        assert(exact >= one) by (nonlinear_arith)
            requires
                exact == size * one,
                size >= 1,
        ;
    }
    assert(millidegrees * one == if millidegrees < 0 {
        -(exact as int)
    } else {
        exact as int
    }) by (nonlinear_arith)
        requires
            exact == size * one,
            size == if millidegrees < 0 {
                -millidegrees
            } else {
                millidegrees
            },
    ;
}

proof fn lemma_file_readings_numbers(
    dir: HwmonEntry,
    files: Seq<HwmonFile>,
    order: Seq<int>,
    chip: Seq<char>,
    pattern: Seq<char>,
)
    ensures
        file_readings(dir, files, order, chip, pattern) matches Ok(readings) ==> forall|i: int|
            0 <= i < readings.len() ==> !(#[trigger] readings[i]).temp_c.is_nan(),
    decreases order.len(),
{
    if order.len() > 0 {
        lemma_file_readings_numbers(dir, files, order.drop_last(), chip, pattern);
        let file = files[order.last()];
        if let Ok(raw) = file.input {
            if let Ok(n) = numeral::integer(text::trimmed(raw@)) {
                law_degrees(n);
            }
        }
    }
}

proof fn lemma_entries_readings_numbers(
    entries: Seq<HwmonEntry>,
    order: Seq<int>,
    chip: Seq<char>,
    pattern: Seq<char>,
)
    ensures
        entries_readings(entries, order, chip, pattern) matches Ok(readings) ==> forall|i: int|
            0 <= i < readings.len() ==> !(#[trigger] readings[i]).temp_c.is_nan(),
    decreases order.len(),
{
    if order.len() > 0 {
        lemma_entries_readings_numbers(entries, order.drop_last(), chip, pattern);
        let dir = entries[order.last()];
        if let Some(files) = dir.files {
            lemma_file_readings_numbers(
                dir,
                files@,
                listing::visit_order(file_names(files@), files@.len()),
                chip,
                pattern,
            );
        }
    }
}

/// A temperature from the directory of chips is always a number.
pub proof fn law_scan_numbers(
    root: Seq<char>,
    entries: Result<Vec<HwmonEntry>, String>,
    chip: Seq<char>,
    pattern: Seq<char>,
)
    ensures
        scan(root, entries, chip, pattern) matches Ok(readings) ==> forall|i: int|
            0 <= i < readings.len() ==> !(#[trigger] readings[i]).temp_c.is_nan(),
{
    if let Ok(v) = entries {
        lemma_entries_readings_numbers(
            v@,
            listing::visit_order(entry_names(v@), v@.len()),
            chip,
            pattern,
        );
    }
}

/// Whether a file's temperature belongs to a sensor: it is in the directory of a
/// chip whose `name` file holds `chip`, it is named `temp.._input`, and the label
/// beside it, or the chip's name where there is none, is `pattern`, or starts
/// with what `pattern` has before a `*` at its end.
pub open spec fn belongs(
    entry: HwmonEntry,
    file: HwmonFile,
    chip: Seq<char>,
    pattern: Seq<char>,
) -> bool {
    let actual = match file.label {
        Some(l) => text::trimmed(l@),
        None => chip,
    };
    &&& entry.is_dir
    &&& entry.name matches Some(n) && text::trimmed(n@) == chip
    &&& valid_utf8(file.file_name@)
    &&& "temp"@.is_prefix_of(decode_utf8(file.file_name@))
    &&& "_input"@.is_suffix_of(decode_utf8(file.file_name@))
    &&& actual == pattern && (pattern.len() == 0 || pattern.last() != '*') || (pattern.len() > 0
        && pattern.last() == '*' && pattern.drop_last().is_prefix_of(actual))
}

/// Whether a file holds whole millidegrees.
pub open spec fn is_readable(file: HwmonFile) -> bool {
    file.input matches Ok(raw) && numeral::integer(text::trimmed(raw@)) is Ok
}

/// The millidegrees that a file holds.
pub open spec fn millidegrees_in(file: HwmonFile) -> int {
    numeral::integer(text::trimmed(file.input->Ok_0@))->Ok_0
}

/// How many of the files belong to a sensor.
pub open spec fn belonging_files(
    entry: HwmonEntry,
    files: Seq<HwmonFile>,
    chip: Seq<char>,
    pattern: Seq<char>,
) -> nat
    decreases files.len(),
{
    if files.len() == 0 {
        0
    } else {
        belonging_files(entry, files.drop_last(), chip, pattern) + if belongs(
            entry,
            files.last(),
            chip,
            pattern,
        ) {
            1nat
        } else {
            0
        }
    }
}

/// How many files of all entries belong to a sensor.
pub open spec fn belonging(
    entries: Seq<HwmonEntry>,
    chip: Seq<char>,
    pattern: Seq<char>,
) -> nat
    decreases entries.len(),
{
    if entries.len() == 0 {
        0
    } else {
        belonging(entries.drop_last(), chip, pattern) + match entries.last().files {
            Some(files) => belonging_files(entries.last(), files@, chip, pattern),
            None => 0,
        }
    }
}

/// The reading of a file: its temperature, labelled with the entry and the file's
/// own label.
pub open spec fn reading_of(entry: HwmonEntry, file: HwmonFile, chip: Seq<char>) -> Reading {
    let directory = if valid_utf8(entry.file_name@) {
        decode_utf8(entry.file_name@)
    } else {
        "hwmon?"@
    };
    Reading {
        label: directory + "/"@ + match file.label {
            Some(l) => text::trimmed(l@),
            None => chip,
        },
        temp_c: degrees(millidegrees_in(file)),
    }
}

/// Whether file `j` of entry `i` is there and belongs to a sensor.
pub open spec fn belongs_at(
    entries: Seq<HwmonEntry>,
    i: int,
    j: int,
    chip: Seq<char>,
    pattern: Seq<char>,
) -> bool {
    &&& 0 <= i < entries.len()
    &&& entries[i].files matches Some(files) && 0 <= j < files@.len() && belongs(
        entries[i],
        files@[j],
        chip,
        pattern,
    )
}

spec fn file_weight(
    entry: HwmonEntry,
    files: Seq<HwmonFile>,
    chip: Seq<char>,
    pattern: Seq<char>,
) -> spec_fn(int) -> nat {
    |k: int|
        if belongs(entry, files[k], chip, pattern) {
            1nat
        } else {
            0
        }
}

spec fn entry_weight(
    entries: Seq<HwmonEntry>,
    chip: Seq<char>,
    pattern: Seq<char>,
) -> spec_fn(int) -> nat {
    |k: int|
        match entries[k].files {
            Some(files) => belonging_files(entries[k], files@, chip, pattern),
            None => 0,
        }
}

proof fn lemma_files_total(
    entry: HwmonEntry,
    files: Seq<HwmonFile>,
    n: nat,
    chip: Seq<char>,
    pattern: Seq<char>,
)
    requires
        n <= files.len(),
    ensures
        listing::total_to(n, file_weight(entry, files, chip, pattern)) == belonging_files(
            entry,
            files.take(n as int),
            chip,
            pattern,
        ),
    decreases n,
{
    if n > 0 {
        lemma_files_total(entry, files, (n - 1) as nat, chip, pattern);
        assert(files.take(n as int).drop_last() =~= files.take(n - 1));
        assert(files.take(n as int).last() == files[n - 1]);
    }
}

proof fn lemma_entries_total(
    entries: Seq<HwmonEntry>,
    n: nat,
    chip: Seq<char>,
    pattern: Seq<char>,
)
    requires
        n <= entries.len(),
    ensures
        listing::total_to(n, entry_weight(entries, chip, pattern)) == belonging(
            entries.take(n as int),
            chip,
            pattern,
        ),
    decreases n,
{
    if n > 0 {
        lemma_entries_total(entries, (n - 1) as nat, chip, pattern);
        assert(entries.take(n as int).drop_last() =~= entries.take(n - 1));
        assert(entries.take(n as int).last() == entries[n - 1]);
    }
}

/// A file that belongs to a sensor gives its reading or fails, and one that does
/// not gives nothing.
proof fn lemma_file_reading(
    entry: HwmonEntry,
    file: HwmonFile,
    chip: Seq<char>,
    pattern: Seq<char>,
)
    requires
        entry.is_dir,
        chip_fits(entry.name, chip),
    ensures
        match file_reading(entry, file, chip, pattern) {
            Err(_) => belongs(entry, file, chip, pattern) && !is_readable(file),
            Ok(None) => !belongs(entry, file, chip, pattern),
            Ok(Some(reading)) => belongs(entry, file, chip, pattern) && is_readable(file) && reading
                == reading_of(entry, file, chip),
        },
{
}

proof fn lemma_files_number(
    entry: HwmonEntry,
    files: Seq<HwmonFile>,
    order: Seq<int>,
    chip: Seq<char>,
    pattern: Seq<char>,
)
    requires
        entry.is_dir,
        chip_fits(entry.name, chip),
    ensures
        file_readings(entry, files, order, chip, pattern) matches Ok(readings) ==> readings.len()
            == listing::total(order, file_weight(entry, files, chip, pattern)),
    decreases order.len(),
{
    if order.len() > 0 {
        lemma_files_number(entry, files, order.drop_last(), chip, pattern);
        lemma_file_reading(entry, files[order.last()], chip, pattern);
    }
}

proof fn lemma_files_fail(
    entry: HwmonEntry,
    files: Seq<HwmonFile>,
    order: Seq<int>,
    chip: Seq<char>,
    pattern: Seq<char>,
) -> (k: int)
    requires
        entry.is_dir,
        chip_fits(entry.name, chip),
        file_readings(entry, files, order, chip, pattern) is Err,
    ensures
        0 <= k < order.len(),
        belongs(entry, files[order[k]], chip, pattern),
        !is_readable(files[order[k]]),
    decreases order.len(),
{
    let front = order.drop_last();
    lemma_file_reading(entry, files[order.last()], chip, pattern);
    if file_readings(entry, files, front, chip, pattern) is Err {
        lemma_files_fail(entry, files, front, chip, pattern)
    } else {
        order.len() - 1
    }
}

proof fn lemma_files_has(
    entry: HwmonEntry,
    files: Seq<HwmonFile>,
    order: Seq<int>,
    chip: Seq<char>,
    pattern: Seq<char>,
    k: int,
) -> (r: int)
    requires
        entry.is_dir,
        chip_fits(entry.name, chip),
        file_readings(entry, files, order, chip, pattern) is Ok,
        0 <= k < order.len(),
        belongs(entry, files[order[k]], chip, pattern),
    ensures
        is_readable(files[order[k]]),
        0 <= r < file_readings(entry, files, order, chip, pattern)->Ok_0.len(),
        file_readings(entry, files, order, chip, pattern)->Ok_0[r] == reading_of(
            entry,
            files[order[k]],
            chip,
        ),
    decreases order.len(),
{
    let front = order.drop_last();
    lemma_file_reading(entry, files[order.last()], chip, pattern);
    if k < front.len() {
        lemma_files_has(entry, files, front, chip, pattern, k)
    } else {
        file_readings(entry, files, order, chip, pattern)->Ok_0.len() - 1
    }
}

proof fn lemma_files_source(
    entry: HwmonEntry,
    files: Seq<HwmonFile>,
    order: Seq<int>,
    chip: Seq<char>,
    pattern: Seq<char>,
    r: int,
) -> (k: int)
    requires
        entry.is_dir,
        chip_fits(entry.name, chip),
        file_readings(entry, files, order, chip, pattern) is Ok,
        0 <= r < file_readings(entry, files, order, chip, pattern)->Ok_0.len(),
    ensures
        0 <= k < order.len(),
        belongs(entry, files[order[k]], chip, pattern),
        file_readings(entry, files, order, chip, pattern)->Ok_0[r] == reading_of(
            entry,
            files[order[k]],
            chip,
        ),
    decreases order.len(),
{
    let front = order.drop_last();
    lemma_file_reading(entry, files[order.last()], chip, pattern);
    if r < file_readings(entry, files, front, chip, pattern)->Ok_0.len() {
        lemma_files_source(entry, files, front, chip, pattern, r)
    } else {
        order.len() - 1
    }
}

proof fn lemma_none_belong(
    entry: HwmonEntry,
    files: Seq<HwmonFile>,
    chip: Seq<char>,
    pattern: Seq<char>,
)
    requires
        !entry.is_dir || !chip_fits(entry.name, chip),
    ensures
        belonging_files(entry, files, chip, pattern) == 0,
    decreases files.len(),
{
    if files.len() > 0 {
        lemma_none_belong(entry, files.drop_last(), chip, pattern);
    }
}

/// The order in which the files of an entry are visited.
spec fn file_order(files: Seq<HwmonFile>) -> Seq<int> {
    listing::visit_order(file_names(files), files.len())
}

proof fn lemma_entry_number(entry: HwmonEntry, chip: Seq<char>, pattern: Seq<char>)
    ensures
        entry_readings(entry, chip, pattern) matches Ok(readings) ==> readings.len()
            == match entry.files {
            Some(files) => belonging_files(entry, files@, chip, pattern),
            None => 0,
        },
{
    if let Some(v) = entry.files {
        let files = v@;
        if !entry.is_dir || !chip_fits(entry.name, chip) {
            lemma_none_belong(entry, files, chip, pattern);
        } else {
            listing::law_visit_total(
                file_names(files),
                files.len(),
                file_weight(entry, files, chip, pattern),
            );
            lemma_files_total(entry, files, files.len(), chip, pattern);
            assert(files.take(files.len() as int) =~= files);
            lemma_files_number(entry, files, file_order(files), chip, pattern);
        }
    }
}

proof fn lemma_entry_fail(entry: HwmonEntry, chip: Seq<char>, pattern: Seq<char>) -> (j: int)
    requires
        entry_readings(entry, chip, pattern) is Err,
    ensures
        entry.files is Some,
        0 <= j < entry.files->0@.len(),
        belongs(entry, entry.files->0@[j], chip, pattern),
        !is_readable(entry.files->0@[j]),
{
    let files = entry.files->0@;
    listing::law_visit_order(file_names(files), files.len());
    let k = lemma_files_fail(entry, files, file_order(files), chip, pattern);
    file_order(files)[k]
}

proof fn lemma_entry_has(
    entry: HwmonEntry,
    chip: Seq<char>,
    pattern: Seq<char>,
    j: int,
) -> (r: int)
    requires
        entry_readings(entry, chip, pattern) is Ok,
        entry.files is Some,
        0 <= j < entry.files->0@.len(),
        belongs(entry, entry.files->0@[j], chip, pattern),
    ensures
        is_readable(entry.files->0@[j]),
        0 <= r < entry_readings(entry, chip, pattern)->Ok_0.len(),
        entry_readings(entry, chip, pattern)->Ok_0[r] == reading_of(
            entry,
            entry.files->0@[j],
            chip,
        ),
{
    let files = entry.files->0@;
    let order = file_order(files);
    listing::law_visit_order(file_names(files), files.len());
    assert(order.contains(j));
    let k = choose|k: int| 0 <= k < order.len() && order[k] == j;
    lemma_files_has(entry, files, order, chip, pattern, k)
}

proof fn lemma_entry_source(
    entry: HwmonEntry,
    chip: Seq<char>,
    pattern: Seq<char>,
    r: int,
) -> (j: int)
    requires
        entry_readings(entry, chip, pattern) is Ok,
        0 <= r < entry_readings(entry, chip, pattern)->Ok_0.len(),
    ensures
        entry.files is Some,
        0 <= j < entry.files->0@.len(),
        belongs(entry, entry.files->0@[j], chip, pattern),
        entry_readings(entry, chip, pattern)->Ok_0[r] == reading_of(
            entry,
            entry.files->0@[j],
            chip,
        ),
{
    let files = entry.files->0@;
    listing::law_visit_order(file_names(files), files.len());
    let k = lemma_files_source(entry, files, file_order(files), chip, pattern, r);
    file_order(files)[k]
}

proof fn lemma_entries_number(
    entries: Seq<HwmonEntry>,
    order: Seq<int>,
    chip: Seq<char>,
    pattern: Seq<char>,
)
    ensures
        entries_readings(entries, order, chip, pattern) matches Ok(readings) ==> readings.len()
            == listing::total(order, entry_weight(entries, chip, pattern)),
    decreases order.len(),
{
    if order.len() > 0 {
        lemma_entries_number(entries, order.drop_last(), chip, pattern);
        lemma_entry_number(entries[order.last()], chip, pattern);
    }
}

proof fn lemma_entries_fail(
    entries: Seq<HwmonEntry>,
    order: Seq<int>,
    chip: Seq<char>,
    pattern: Seq<char>,
) -> (at: (int, int))
    requires
        entries_readings(entries, order, chip, pattern) is Err,
        forall|k: int| 0 <= k < order.len() ==> 0 <= #[trigger] order[k] < entries.len(),
    ensures
        belongs_at(entries, at.0, at.1, chip, pattern),
        !is_readable(entries[at.0].files->0@[at.1]),
    decreases order.len(),
{
    let front = order.drop_last();
    assert forall|k: int| 0 <= k < front.len() implies 0 <= #[trigger] front[k] < entries.len() by {
        assert(front[k] == order[k]);
    }
    if entries_readings(entries, front, chip, pattern) is Err {
        lemma_entries_fail(entries, front, chip, pattern)
    } else {
        let i = order[order.len() - 1];
        let j = lemma_entry_fail(entries[i], chip, pattern);
        (i, j)
    }
}

proof fn lemma_entries_has(
    entries: Seq<HwmonEntry>,
    order: Seq<int>,
    chip: Seq<char>,
    pattern: Seq<char>,
    k: int,
    j: int,
) -> (r: int)
    requires
        entries_readings(entries, order, chip, pattern) is Ok,
        0 <= k < order.len(),
        belongs_at(entries, order[k], j, chip, pattern),
    ensures
        is_readable(entries[order[k]].files->0@[j]),
        0 <= r < entries_readings(entries, order, chip, pattern)->Ok_0.len(),
        entries_readings(entries, order, chip, pattern)->Ok_0[r] == reading_of(
            entries[order[k]],
            entries[order[k]].files->0@[j],
            chip,
        ),
    decreases order.len(),
{
    let front = order.drop_last();
    if k < front.len() {
        lemma_entries_has(entries, front, chip, pattern, k, j)
    } else {
        let q = lemma_entry_has(entries[order[k]], chip, pattern, j);
        entries_readings(entries, front, chip, pattern)->Ok_0.len() + q
    }
}

proof fn lemma_entries_source(
    entries: Seq<HwmonEntry>,
    order: Seq<int>,
    chip: Seq<char>,
    pattern: Seq<char>,
    r: int,
) -> (at: (int, int))
    requires
        entries_readings(entries, order, chip, pattern) is Ok,
        forall|k: int| 0 <= k < order.len() ==> 0 <= #[trigger] order[k] < entries.len(),
        0 <= r < entries_readings(entries, order, chip, pattern)->Ok_0.len(),
    ensures
        belongs_at(entries, at.0, at.1, chip, pattern),
        entries_readings(entries, order, chip, pattern)->Ok_0[r] == reading_of(
            entries[at.0],
            entries[at.0].files->0@[at.1],
            chip,
        ),
    decreases order.len(),
{
    let front = order.drop_last();
    assert forall|k: int| 0 <= k < front.len() implies 0 <= #[trigger] front[k] < entries.len() by {
        assert(front[k] == order[k]);
    }
    let before = entries_readings(entries, front, chip, pattern)->Ok_0;
    if r < before.len() {
        lemma_entries_source(entries, front, chip, pattern, r)
    } else {
        let i = order[order.len() - 1];
        let j = lemma_entry_source(entries[i], chip, pattern, r - before.len());
        (i, j)
    }
}

/// Whether a reading is that of a file that belongs to the sensor.
pub open spec fn has_source(
    entries: Seq<HwmonEntry>,
    reading: Reading,
    chip: Seq<char>,
    pattern: Seq<char>,
) -> bool {
    exists|i: int, j: int| #[trigger]
        belongs_at(entries, i, j, chip, pattern) && reading == reading_of(
            entries[i],
            entries[i].files->0@[j],
            chip,
        )
}

/// Every temperature that belongs to a sensor is read, and nothing else is:
/// there are as many readings as files that belong to it, each of these files has
/// its reading, and each reading its file. Reading fails exactly where one of
/// these files does not hold whole millidegrees.
pub proof fn law_scan_complete(
    root: Seq<char>,
    entries: Vec<HwmonEntry>,
    chip: Seq<char>,
    pattern: Seq<char>,
)
    ensures
        scan(root, Ok(entries), chip, pattern) is Err <==> exists|i: int, j: int|
            #[trigger] belongs_at(entries@, i, j, chip, pattern) && !is_readable(
                entries@[i].files->0@[j],
            ),
        scan(root, Ok(entries), chip, pattern) matches Ok(readings) ==> {
            &&& readings.len() == belonging(entries@, chip, pattern)
            &&& forall|i: int, j: int| #[trigger]
                belongs_at(entries@, i, j, chip, pattern) ==> readings.contains(
                    reading_of(entries@[i], entries@[i].files->0@[j], chip),
                )
            &&& forall|r: int|
                0 <= r < readings.len() ==> has_source(
                    entries@,
                    #[trigger] readings[r],
                    chip,
                    pattern,
                )
        },
{
    let all = entries@;
    let names = entry_names(all);
    let order = listing::visit_order(names, all.len());
    listing::law_visit_order(names, all.len());
    listing::law_visit_total(names, all.len(), entry_weight(all, chip, pattern));
    lemma_entries_total(all, all.len(), chip, pattern);
    assert(all.take(all.len() as int) =~= all);
    lemma_entries_number(all, order, chip, pattern);
    match entries_readings(all, order, chip, pattern) {
        Err(_) => {
            let at = lemma_entries_fail(all, order, chip, pattern);
            assert(belongs_at(all, at.0, at.1, chip, pattern));
        },
        Ok(readings) => {
            assert forall|i: int, j: int| #[trigger]
                belongs_at(all, i, j, chip, pattern) implies is_readable(all[i].files->0@[j])
                && readings.contains(reading_of(all[i], all[i].files->0@[j], chip)) by {
                assert(order.contains(i));
                let k = choose|k: int| 0 <= k < order.len() && order[k] == i;
                let r = lemma_entries_has(all, order, chip, pattern, k, j);
                assert(readings[r] == reading_of(all[i], all[i].files->0@[j], chip));
            }
            assert forall|r: int| 0 <= r < readings.len() implies has_source(
                all,
                #[trigger] readings[r],
                chip,
                pattern,
            ) by {
                let at = lemma_entries_source(all, order, chip, pattern, r);
                assert(belongs_at(all, at.0, at.1, chip, pattern));
            }
        },
    }
}

proof fn lemma_file_counted(
    entry: HwmonEntry,
    files: Seq<HwmonFile>,
    j: int,
    chip: Seq<char>,
    pattern: Seq<char>,
)
    requires
        0 <= j < files.len(),
        belongs(entry, files[j], chip, pattern),
    ensures
        belonging_files(entry, files, chip, pattern) > 0,
    decreases files.len(),
{
    if j < files.len() - 1 {
        lemma_file_counted(entry, files.drop_last(), j, chip, pattern);
    }
}

/// A file that belongs to a sensor is counted among those that do.
pub proof fn law_belonging_counted(
    entries: Seq<HwmonEntry>,
    i: int,
    j: int,
    chip: Seq<char>,
    pattern: Seq<char>,
)
    requires
        belongs_at(entries, i, j, chip, pattern),
    ensures
        belonging(entries, chip, pattern) > 0,
    decreases entries.len(),
{
    if i < entries.len() - 1 {
        assert(belongs_at(entries.drop_last(), i, j, chip, pattern));
        law_belonging_counted(entries.drop_last(), i, j, chip, pattern);
    } else {
        lemma_file_counted(entries[i], entries[i].files->0@, j, chip, pattern);
    }
}

/// The readings of an entry are those of its files that belong to the sensor, in
/// the order in which the files are visited.
pub proof fn law_entry_in_order(entry: HwmonEntry, chip: Seq<char>, pattern: Seq<char>)
    ensures
        entry_readings(entry, chip, pattern) matches Ok(readings) ==> readings == match entry.files {
            Some(files) => listing::visit_order(file_names(files@), files@.len()).filter(
                |k: int| belongs(entry, files@[k], chip, pattern),
            ).map_values(|k: int| reading_of(entry, files@[k], chip)),
            None => Seq::<Reading>::empty(),
        },
{
    if let Some(v) = entry.files {
        let order = listing::visit_order(file_names(v@), v@.len());
        if entry.is_dir && chip_fits(entry.name, chip) {
            lemma_files_in_order(entry, v@, order, chip, pattern);
        } else {
            lemma_none_in_order(entry, v@, order, chip, pattern);
        }
    }
}

proof fn lemma_none_in_order(
    entry: HwmonEntry,
    files: Seq<HwmonFile>,
    order: Seq<int>,
    chip: Seq<char>,
    pattern: Seq<char>,
)
    requires
        !entry.is_dir || !chip_fits(entry.name, chip),
    ensures
        order.filter(|k: int| belongs(entry, files[k], chip, pattern)).map_values(
            |k: int| reading_of(entry, files[k], chip),
        ) == Seq::<Reading>::empty(),
    decreases order.len(),
{
    reveal(Seq::filter);
    if order.len() > 0 {
        lemma_none_in_order(entry, files, order.drop_last(), chip, pattern);
    }
    let kept = order.filter(|k: int| belongs(entry, files[k], chip, pattern));
    assert(kept.len() == 0) by {
        if order.len() > 0 {
            let front = order.drop_last().filter(
                |k: int| belongs(entry, files[k], chip, pattern),
            );
            assert(front.map_values(|k: int| reading_of(entry, files[k], chip)).len()
                == front.len());
        }
    }
    assert(kept.map_values(|k: int| reading_of(entry, files[k], chip)) =~= Seq::empty());
}

proof fn lemma_files_in_order(
    entry: HwmonEntry,
    files: Seq<HwmonFile>,
    order: Seq<int>,
    chip: Seq<char>,
    pattern: Seq<char>,
)
    requires
        entry.is_dir,
        chip_fits(entry.name, chip),
    ensures
        file_readings(entry, files, order, chip, pattern) matches Ok(readings) ==> readings
            == order.filter(|k: int| belongs(entry, files[k], chip, pattern)).map_values(
            |k: int| reading_of(entry, files[k], chip),
        ),
    decreases order.len(),
{
    reveal(Seq::filter);
    let keep = |k: int| belongs(entry, files[k], chip, pattern);
    let give = |k: int| reading_of(entry, files[k], chip);
    if order.len() > 0 {
        let front = order.drop_last();
        lemma_files_in_order(entry, files, front, chip, pattern);
        lemma_file_reading(entry, files[order.last()], chip, pattern);
        if keep(order.last()) {
            assert(order.filter(keep) =~= front.filter(keep).push(order.last()));
            assert(order.filter(keep).map_values(give) =~= front.filter(keep).map_values(give).push(
                give(order.last()),
            ));
        } else {
            assert(order.filter(keep) =~= front.filter(keep));
        }
    } else {
        assert(order.filter(keep).map_values(give) =~= Seq::<Reading>::empty());
    }
}

/// What the entries that are visited give, one after the other.
pub open spec fn in_turn(
    entries: Seq<HwmonEntry>,
    order: Seq<int>,
    chip: Seq<char>,
    pattern: Seq<char>,
) -> Seq<Seq<Reading>> {
    order.map_values(|k: int| entry_readings(entries[k], chip, pattern)->Ok_0)
}

/// The readings of a sensor are those of the entries, in the order in which these
/// are visited; and it is a failure of the first entry that has one that is
/// reported.
pub proof fn law_scan_in_order(
    root: Seq<char>,
    entries: Vec<HwmonEntry>,
    chip: Seq<char>,
    pattern: Seq<char>,
)
    ensures
        ({
            let order = listing::visit_order(entry_names(entries@), entries@.len());
            match scan(root, Ok(entries), chip, pattern) {
                Ok(readings) => readings == in_turn(entries@, order, chip, pattern).flatten(),
                Err(reason) => exists|k: int|
                    {
                        &&& 0 <= k < order.len()
                        &&& entry_readings(entries@[#[trigger] order[k]], chip, pattern) == Err::<
                            Seq<Reading>,
                            Seq<char>,
                        >(reason)
                        &&& forall|j: int|
                            0 <= j < k ==> entry_readings(
                                entries@[#[trigger] order[j]],
                                chip,
                                pattern,
                            ) is Ok
                    },
            }
        }),
{
    let order = listing::visit_order(entry_names(entries@), entries@.len());
    if scan(root, Ok(entries), chip, pattern) is Ok {
        lemma_in_turn(entries@, order, chip, pattern);
    } else {
        let k = lemma_first_failure(entries@, order, chip, pattern);
        assert(entry_readings(entries@[order[k]], chip, pattern) is Err);
    }
}

proof fn lemma_in_turn(
    entries: Seq<HwmonEntry>,
    order: Seq<int>,
    chip: Seq<char>,
    pattern: Seq<char>,
)
    requires
        entries_readings(entries, order, chip, pattern) is Ok,
    ensures
        entries_readings(entries, order, chip, pattern)->Ok_0 == in_turn(
            entries,
            order,
            chip,
            pattern,
        ).flatten(),
    decreases order.len(),
{
    if order.len() > 0 {
        let front = order.drop_last();
        lemma_in_turn(entries, front, chip, pattern);
        let before = in_turn(entries, front, chip, pattern);
        let more = entry_readings(entries[order.last()], chip, pattern)->Ok_0;
        assert(in_turn(entries, order, chip, pattern) =~= before.push(more));
        before.lemma_flatten_push(more);
    } else {
        assert(in_turn(entries, order, chip, pattern) =~= Seq::empty());
        assert(Seq::<Seq<Reading>>::empty().flatten() =~= Seq::empty());
    }
}

proof fn lemma_first_failure(
    entries: Seq<HwmonEntry>,
    order: Seq<int>,
    chip: Seq<char>,
    pattern: Seq<char>,
) -> (k: int)
    requires
        entries_readings(entries, order, chip, pattern) is Err,
    ensures
        0 <= k < order.len(),
        entry_readings(entries[order[k]], chip, pattern) is Err,
        entry_readings(entries[order[k]], chip, pattern)->Err_0 == entries_readings(
            entries,
            order,
            chip,
            pattern,
        )->Err_0,
        forall|j: int|
            0 <= j < k ==> entry_readings(entries[#[trigger] order[j]], chip, pattern) is Ok,
    decreases order.len(),
{
    let front = order.drop_last();
    if entries_readings(entries, front, chip, pattern) is Err {
        let k = lemma_first_failure(entries, front, chip, pattern);
        assert forall|j: int| 0 <= j < k implies entry_readings(
            entries[#[trigger] order[j]],
            chip,
            pattern,
        ) is Ok by {
            assert(front[j] == order[j]);
        }
        k
    } else {
        lemma_all_fine(entries, front, chip, pattern);
        assert forall|j: int| 0 <= j < order.len() - 1 implies entry_readings(
            entries[#[trigger] order[j]],
            chip,
            pattern,
        ) is Ok by {
            assert(front[j] == order[j]);
        }
        order.len() - 1
    }
}

proof fn lemma_all_fine(
    entries: Seq<HwmonEntry>,
    order: Seq<int>,
    chip: Seq<char>,
    pattern: Seq<char>,
)
    requires
        entries_readings(entries, order, chip, pattern) is Ok,
    ensures
        forall|j: int|
            0 <= j < order.len() ==> entry_readings(
                entries[#[trigger] order[j]],
                chip,
                pattern,
            ) is Ok,
    decreases order.len(),
{
    if order.len() > 0 {
        let front = order.drop_last();
        lemma_all_fine(entries, front, chip, pattern);
        assert forall|j: int| 0 <= j < order.len() implies entry_readings(
            entries[#[trigger] order[j]],
            chip,
            pattern,
        ) is Ok by {
            if j < front.len() {
                assert(front[j] == order[j]);
            }
        }
    }
}

} // verus!
