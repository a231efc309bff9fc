//! Reading CPU, memory, thermal and per-app usage off a phone over adb.
//!
//! Every shell call opens its own transport, so round trips are the budget:
//! hence one batched command for the system numbers.

use crate::table;
use crate::table::Table;
use crate::text;
use std::collections::HashMap;
use vstd::prelude::*;
use vstd::string::*;

verus! {

broadcast use vstd::std_specs::hash::group_hash_axioms;

/// The command that reads the whole system set in one transport.
///
/// The sentinels are echoed rather than the sections being parsed positionally:
/// any one of these can be missing (thermal usually is) and a missing section
/// must not shift the meaning of the next one.
pub fn system_batch() -> (command: &'static str)
    ensures
        command@
            == "sh -c 'echo ---stat; cat /proc/stat 2>/dev/null | head -1; echo ---mem; cat /proc/meminfo 2>/dev/null; echo ---batt; dumpsys battery 2>/dev/null; echo ---ztype; cat /sys/class/thermal/thermal_zone*/type 2>/dev/null; echo ---ztemp; cat /sys/class/thermal/thermal_zone*/temp 2>/dev/null'"@,
{
    "sh -c 'echo ---stat; cat /proc/stat 2>/dev/null | head -1; echo ---mem; cat /proc/meminfo 2>/dev/null; echo ---batt; dumpsys battery 2>/dev/null; echo ---ztype; cat /sys/class/thermal/thermal_zone*/type 2>/dev/null; echo ---ztemp; cat /sys/class/thermal/thermal_zone*/temp 2>/dev/null'"
}

/// The name that a marker line gives to the section after it.
pub open spec fn marker_in(line: Seq<char>) -> Option<Seq<char>> {
    text::strip_prefix(text::trim_end(line), "---"@)
}

/// The sections that these lines, each with its newline, make up: every marker
/// starts one, and what comes before the first belongs to none.
pub open spec fn sections_in(lines: Seq<Seq<char>>) -> Seq<(Seq<char>, Seq<char>)>
    decreases lines.len(),
{
    if lines.len() == 0 {
        Seq::empty()
    } else {
        let before = sections_in(lines.drop_last());
        match marker_in(lines.last()) {
            Some(name) => before.push((name, Seq::empty())),
            None => if before.len() == 0 {
                before
            } else {
                before.drop_last().push((before.last().0, before.last().1 + lines.last()))
            },
        }
    }
}

/// Splits the batched output into its sections. A section absent from the output
/// is absent from the table rather than empty.
pub fn split_sections(output: &str) -> (sections: Table)
    ensures
        sections@ == sections_in(text::whole_lines(output@)),
{
    let chars = text::chars_of(output);
    let lines = text::whole_lines_of(&chars);
    let ghost all = text::texts(lines@);
    let mut entries: Vec<(String, String)> = Vec::new();
    let mut i: usize = 0;
    assert(all.take(0) =~= Seq::<Seq<char>>::empty());
    assert(table::pair_views(entries@) =~= Seq::<(Seq<char>, Seq<char>)>::empty());
    while i < lines.len()
        invariant
            i <= lines@.len(),
            all == text::texts(lines@),
            table::pair_views(entries@) == sections_in(all.take(i as int)),
        decreases lines@.len() - i,
    {
        let ghost more = all.take(i + 1);
        let ghost before = entries@;
        assert(more.drop_last() =~= all.take(i as int));
        assert(more.last() == lines@[i as int]@);
        match text::after_prefix(text::trimmed_end(&lines[i]), "---") {
            Some(name) => {
                entries.push((text::string_of(name), String::new()));
                assert(table::pair_views(entries@) =~= table::pair_views(before).push(
                    (name@, Seq::<char>::empty()),
                ));
            },
            None => {
                match entries.pop() {
                    Some((name, body)) => {
                        let ghost old_name = name@;
                        let ghost old_body = body@;
                        let mut grown = body;
                        text::push_chars(&mut grown, &lines[i]);
                        entries.push((name, grown));
                        assert(table::pair_views(before).last() == (old_name, old_body));
                        assert(table::pair_views(entries@) =~= table::pair_views(before).drop_last().push(
                            (old_name, old_body + lines@[i as int]@),
                        ));
                    },
                    None => {},
                }
            },
        }
        i += 1;
    }
    assert(all.take(i as int) =~= all);
    Table::new(entries)
}

/// The fields of the first line that starts with the word `cpu`.
pub open spec fn cpu_fields_in(lines: Seq<Seq<char>>) -> Option<Seq<Seq<char>>>
    decreases lines.len(),
{
    if lines.len() == 0 {
        None
    } else {
        let fields = text::words(lines[0]);
        if fields.len() > 0 && fields[0] == "cpu"@ {
            Some(fields.drop_first())
        } else {
            cpu_fields_in(lines.drop_first())
        }
    }
}

/// The fields of the aggregate `cpu` line of `/proc/stat`.
///
/// Per-core lines are ignored: `cpu0` is not `cpu`. A truncated line is not a
/// partial reading: user, nice, system and idle are the four every kernel has,
/// and anything shorter is garbage rather than an old kernel.
pub fn proc_stat_fields(section: &str) -> (fields: Option<Vec<String>>)
    ensures
        match fields {
            Some(fields) => cpu_fields_in(text::lines(section@)) == Some(text::strings(fields@))
                && fields@.len() >= 4,
            None => match cpu_fields_in(text::lines(section@)) {
                Some(fields) => fields.len() < 4,
                None => true,
            },
        },
{
    let chars = text::chars_of(section);
    let lines = text::lines_of(&chars);
    let ghost all = text::texts(lines@);
    let mut i: usize = 0;
    assert(all.skip(0) =~= all);
    while i < lines.len()
        invariant
            i <= lines@.len(),
            all == text::texts(lines@),
            all == text::lines(section@),
            cpu_fields_in(all) == cpu_fields_in(all.skip(i as int)),
        decreases lines@.len() - i,
    {
        assert(all.skip(i as int)[0] == lines@[i as int]@);
        assert(all.skip(i as int).drop_first() =~= all.skip(i + 1));
        let words = text::words_of(&lines[i]);
        let ghost fields = text::texts(words@);
        assert(fields.len() == words@.len());
        if words.len() > 0 && text::reads(&words[0], "cpu") {
            assert(fields[0] == words@[0]@);
            if words.len() < 5 {
                return None;
            }
            let mut out: Vec<String> = Vec::new();
            let mut k: usize = 1;
            while k < words.len()
                invariant
                    1 <= k <= words@.len(),
                    fields == text::texts(words@),
                    text::strings(out@) == fields.subrange(1, k as int),
                decreases words@.len() - k,
            {
                let ghost before = out@;
                out.push(text::string_of(&words[k]));
                assert(text::strings(out@) =~= text::strings(before).push(words@[k as int]@));
                assert(fields.subrange(1, k + 1) =~= fields.subrange(1, k as int).push(
                    words@[k as int]@,
                ));
                k += 1;
            }
            assert(fields.subrange(1, k as int) =~= fields.drop_first());
            assert(text::strings(out@).len() == out@.len());
            return Some(out);
        }
        i += 1;
    }
    None
}

/// Memory readings, in bytes.
#[derive(Debug, Clone, Copy, PartialEq, Eq, Structural)]
pub struct MemoryBytes {
    pub total: u64,
    /// Kept apart from `free` on purpose: `free` excludes reclaimable page
    /// cache, so standing in for this it would overstate memory pressure.
    pub available: Option<u64>,
    pub free: Option<u64>,
}

/// The number of a line `name: number …`, where the line is for this name and
/// holds one.
pub open spec fn kb_in(line: Seq<char>, name: Seq<char>) -> Option<int> {
    match text::split_once(line, ':') {
        None => None,
        Some((key, value)) => if text::trim(key) != name || text::words(value).len() == 0 {
            None
        } else {
            text::unsigned_in(text::words(value)[0], 10, u64::MAX as int)
        },
    }
}

/// The number of the first line that has one for this name.
pub open spec fn first_kb(lines: Seq<Seq<char>>, name: Seq<char>) -> Option<int>
    decreases lines.len(),
{
    if lines.len() == 0 {
        None
    } else if kb_in(lines[0], name) is Some {
        kb_in(lines[0], name)
    } else {
        first_kb(lines.drop_first(), name)
    }
}

/// A number of kilobytes in bytes.
pub open spec fn in_bytes(kb: Option<int>) -> Option<u64> {
    match kb {
        Some(kb) => Some((kb * 1024) as u64),
        None => None,
    }
}

/// Whether a number of kilobytes is one that 64 bits hold in bytes.
pub open spec fn fits(kb: Option<int>) -> bool {
    match kb {
        Some(kb) => kb * 1024 <= u64::MAX,
        None => true,
    }
}

/// The kilobytes that a line of `/proc/meminfo` gives for a name.
pub fn meminfo_kb(section: &str, name: &str) -> (kb: Option<u64>)
    ensures
        match kb {
            Some(kb) => first_kb(text::lines(section@), name@) == Some(kb as int),
            None => first_kb(text::lines(section@), name@) is None,
        },
{
    let chars = text::chars_of(section);
    let lines = text::lines_of(&chars);
    let ghost all = text::texts(lines@);
    let mut i: usize = 0;
    assert(all.skip(0) =~= all);
    while i < lines.len()
        invariant
            i <= lines@.len(),
            all == text::texts(lines@),
            all == text::lines(section@),
            first_kb(all, name@) == first_kb(all.skip(i as int), name@),
        decreases lines@.len() - i,
    {
        assert(all.skip(i as int)[0] == lines@[i as int]@);
        assert(all.skip(i as int).drop_first() =~= all.skip(i + 1));
        match text::parted(&lines[i], ':') {
            Some((key, value)) => {
                if text::reads(text::trimmed(key), name) {
                    let words = text::words_of(value);
                    assert(text::texts(words@).len() == words@.len());
                    if words.len() > 0 {
                        assert(text::texts(words@)[0] == words@[0]@);
                        match text::parse_unsigned(&words[0], 10, u64::MAX) {
                            Some(kb) => {
                                return Some(kb);
                            },
                            None => {},
                        }
                    }
                }
            },
            None => {},
        }
        i += 1;
    }
    None
}

/// `/proc/meminfo`, in bytes. A kernel too old to report `MemAvailable` gets
/// none, not a fallback to `MemFree`.
pub fn parse_meminfo(section: &str) -> (memory: Option<MemoryBytes>)
    requires
        fits(first_kb(text::lines(section@), "MemTotal"@)),
        fits(first_kb(text::lines(section@), "MemAvailable"@)),
        fits(first_kb(text::lines(section@), "MemFree"@)),
    ensures
        match first_kb(text::lines(section@), "MemTotal"@) {
            None => memory is None,
            Some(total) => memory == Some(
                MemoryBytes {
                    total: (total * 1024) as u64,
                    available: in_bytes(first_kb(text::lines(section@), "MemAvailable"@)),
                    free: in_bytes(first_kb(text::lines(section@), "MemFree"@)),
                },
            ),
        },
{
    let total: u64 = match meminfo_kb(section, "MemTotal") {
        Some(kb) => kb * 1024,
        None => {
            return None;
        },
    };
    let available = match meminfo_kb(section, "MemAvailable") {
        Some(kb) => Some(kb * 1024),
        None => None,
    };
    let free = match meminfo_kb(section, "MemFree") {
        Some(kb) => Some(kb * 1024),
        None => None,
    };
    Some(MemoryBytes { total, available, free })
}

/// The number of a `temperature:` line, where the line is one and holds one.
pub open spec fn temperature_in(line: Seq<char>) -> Option<int> {
    match text::split_once(line, ':') {
        None => None,
        Some((key, value)) => if text::trim(key) != "temperature"@ {
            None
        } else {
            text::signed_in(text::trim(value))
        },
    }
}

/// The number of the first `temperature:` line that holds one.
pub open spec fn first_temperature(lines: Seq<Seq<char>>) -> Option<int>
    decreases lines.len(),
{
    if lines.len() == 0 {
        None
    } else if temperature_in(lines[0]) is Some {
        temperature_in(lines[0])
    } else {
        first_temperature(lines.drop_first())
    }
}

/// `dumpsys battery`'s `temperature:` line, in tenths of a degree.
///
/// A device with no sensor reports a sentinel, `-1` in practice and `0` on a
/// couple of emulators, and that is worse than no reading at all.
pub fn battery_temperature_tenths(dump: &str) -> (tenths: Option<i64>)
    ensures
        match tenths {
            Some(tenths) => tenths > 0 && first_temperature(text::lines(dump@)) == Some(
                tenths as int,
            ),
            None => match first_temperature(text::lines(dump@)) {
                Some(tenths) => tenths <= 0,
                None => true,
            },
        },
{
    let chars = text::chars_of(dump);
    let lines = text::lines_of(&chars);
    let ghost all = text::texts(lines@);
    let mut i: usize = 0;
    assert(all.skip(0) =~= all);
    while i < lines.len()
        invariant
            i <= lines@.len(),
            all == text::texts(lines@),
            all == text::lines(dump@),
            first_temperature(all) == first_temperature(all.skip(i as int)),
        decreases lines@.len() - i,
    {
        assert(all.skip(i as int)[0] == lines@[i as int]@);
        assert(all.skip(i as int).drop_first() =~= all.skip(i + 1));
        match text::parted(&lines[i], ':') {
            Some((key, value)) => {
                if text::reads(text::trimmed(key), "temperature") {
                    match text::parse_signed(text::trimmed(value)) {
                        Some(tenths) => {
                            return if tenths > 0 {
                                Some(tenths)
                            } else {
                                None
                            };
                        },
                        None => {},
                    }
                }
            },
            None => {},
        }
        i += 1;
    }
    None
}

/// The lines that are not blank, each without white space at its ends.
pub open spec fn filled(lines: Seq<Seq<char>>) -> Seq<Seq<char>>
    decreases lines.len(),
{
    if lines.len() == 0 {
        Seq::empty()
    } else {
        let before = filled(lines.drop_last());
        let line = text::trim(lines.last());
        if line.len() == 0 {
            before
        } else {
            before.push(line)
        }
    }
}

fn filled_lines(chars: &[char]) -> (out: Vec<Vec<char>>)
    ensures
        text::texts(out@) == filled(text::lines(chars@)),
{
    let lines = text::lines_of(chars);
    let ghost all = text::texts(lines@);
    let mut out: Vec<Vec<char>> = Vec::new();
    let mut i: usize = 0;
    assert(all.take(0) =~= Seq::<Seq<char>>::empty());
    assert(text::texts(out@) =~= Seq::<Seq<char>>::empty());
    while i < lines.len()
        invariant
            i <= lines@.len(),
            all == text::texts(lines@),
            text::texts(out@) == filled(all.take(i as int)),
        decreases lines@.len() - i,
    {
        let ghost more = all.take(i + 1);
        let ghost before = out@;
        assert(more.drop_last() =~= all.take(i as int));
        assert(more.last() == lines@[i as int]@);
        let line = text::trimmed(&lines[i]);
        if line.len() > 0 {
            out.push(vstd::slice::slice_to_vec(line));
            assert(text::texts(out@) =~= text::texts(before).push(line@));
        }
        i += 1;
    }
    assert(all.take(i as int) =~= all);
    out
}

/// The zones that two lists make, each with its reading.
pub open spec fn zones_in(types: Seq<char>, temps: Seq<char>) -> Seq<(Seq<char>, Seq<char>)> {
    let names = filled(text::lines(types));
    let readings = filled(text::lines(temps));
    if names.len() != readings.len() {
        Seq::empty()
    } else {
        Seq::new(names.len(), |i: int| (names[i], readings[i]))
    }
}

/// Every zone has the reading that stands at its own place: the two lists are the names
/// and the readings of the pairs, and where they do not go together there is no pair at
/// all.
pub proof fn law_each_zone_has_its_own_reading(types: Seq<char>, temps: Seq<char>)
    ensures
        ({
            let names = filled(text::lines(types));
            let readings = filled(text::lines(temps));
            let zones = zones_in(types, temps);
            &&& names.len() == readings.len() ==> zones.map_values(
                |zone: (Seq<char>, Seq<char>)| zone.0,
            ) == names && zones.map_values(|zone: (Seq<char>, Seq<char>)| zone.1) == readings
            &&& names.len() != readings.len() ==> zones.len() == 0
        }),
{
    let names = filled(text::lines(types));
    let readings = filled(text::lines(temps));
    let zones = zones_in(types, temps);
    if names.len() == readings.len() {
        assert(zones.map_values(|zone: (Seq<char>, Seq<char>)| zone.0) =~= names);
        assert(zones.map_values(|zone: (Seq<char>, Seq<char>)| zone.1) =~= readings);
    }
}

/// Pairs `thermal_zone*/type` with `thermal_zone*/temp`.
///
/// The two globs expand in the same order, so pairing them up is right, but only
/// if both produced the same count. Different lengths mean one glob was partly
/// denied, and pairing would attach each temperature to the wrong sensor.
pub fn thermal_readings(types: &str, temps: &str) -> (pairs: Vec<(String, String)>)
    ensures
        table::pair_views(pairs@) == zones_in(types@, temps@),
{
    let type_chars = text::chars_of(types);
    let temp_chars = text::chars_of(temps);
    let names = filled_lines(&type_chars);
    let readings = filled_lines(&temp_chars);
    let ghost all = text::texts(names@);
    let ghost values = text::texts(readings@);
    assert(all.len() == names@.len() && values.len() == readings@.len());
    let mut pairs: Vec<(String, String)> = Vec::new();
    if names.len() != readings.len() {
        assert(table::pair_views(pairs@) =~= Seq::<(Seq<char>, Seq<char>)>::empty());
        return pairs;
    }
    let ghost goal = Seq::new(all.len(), |i: int| (all[i], values[i]));
    let mut i: usize = 0;
    while i < names.len()
        invariant
            i <= names@.len(),
            names@.len() == readings@.len(),
            all == text::texts(names@),
            values == text::texts(readings@),
            goal == Seq::new(all.len(), |i: int| (all[i], values[i])),
            table::pair_views(pairs@) == goal.take(i as int),
        decreases names@.len() - i,
    {
        let ghost before = pairs@;
        pairs.push((text::string_of(&names[i]), text::string_of(&readings[i])));
        assert(table::pair_views(pairs@) =~= table::pair_views(before).push(
            (names@[i as int]@, readings@[i as int]@),
        ));
        assert(goal.take(i + 1) =~= goal.take(i as int).push(goal[i as int]));
        i += 1;
    }
    assert(goal.take(i as int) =~= goal);
    pairs
}

/// One process of `dumpsys meminfo`: its pid, its name and its PSS.
pub open spec fn process_in(line: Seq<char>) -> Option<(int, Seq<char>, int)> {
    match text::split_once(line, ':') {
        None => None,
        Some((size, rest)) => {
            let digits = text::without(text::trim_end_of(text::trim(size), 'K'), ',');
            match (
                text::unsigned_in(digits, 10, u64::MAX as int),
                text::split_at_text(text::trim(rest), "(pid "@, 0),
            ) {
                (Some(kb), Some((name, after))) => {
                    let process = text::trim(name);
                    let pid = text::signed_in(text::first_number(after));
                    if process.len() == 0 || pid is None {
                        None
                    } else {
                        Some((pid->0, process, kb))
                    }
                },
                _ => None,
            }
        },
    }
}

/// Whether a line opens the section of processes.
pub open spec fn opens_pss(line: Seq<char>) -> bool {
    "Total PSS by process"@.is_prefix_of(line)
}

/// Whether these lines are past the heading of the section of processes, whether
/// they are past the blank line that ends it, and the processes in it. What
/// follows the section lists the same processes again.
pub open spec fn pss_in(lines: Seq<Seq<char>>) -> (bool, bool, Seq<(int, Seq<char>, int)>)
    decreases lines.len(),
{
    if lines.len() == 0 {
        (false, false, Seq::empty())
    } else {
        let (inside, over, before) = pss_in(lines.drop_last());
        let line = text::trim(lines.last());
        if over {
            (inside, over, before)
        } else if opens_pss(line) {
            (true, false, before)
        } else if !inside {
            (false, false, before)
        } else if line.len() == 0 {
            (true, true, before)
        } else {
            match process_in(line) {
                Some(process) => (true, false, before.push(process)),
                None => (true, false, before),
            }
        }
    }
}

fn parse_process(line: &[char]) -> (process: Option<(i64, String, u64)>)
    ensures
        match process {
            Some((pid, name, kb)) => process_in(line@) == Some((pid as int, name@, kb as int)),
            None => process_in(line@) is None,
        },
{
    let (size, rest) = match text::parted(line, ':') {
        Some(parts) => parts,
        None => {
            return None;
        },
    };
    // Values are comma-grouped. Parsing without stripping the commas yields 123
    // for a 123 MB process, which reads as a plausible number and is not.
    let digits = text::with_removed(text::trimmed_end_of(text::trimmed(size), 'K'), ',');
    let kb: u64 = match text::parse_unsigned(&digits, 10, u64::MAX) {
        Some(kb) => kb,
        None => {
            return None;
        },
    };
    let (name, after) = match text::parted_by(text::trimmed(rest), "(pid ") {
        Some(parts) => parts,
        None => {
            return None;
        },
    };
    let process = text::trimmed(name);
    if process.len() == 0 {
        return None;
    }
    match text::parse_signed(text::first_digits(after)) {
        Some(pid) => Some((pid, text::string_of(process), kb)),
        None => None,
    }
}

/// Processes as the section lists them, with their names as texts.
pub open spec fn process_views(processes: Seq<(i64, String, u64)>) -> Seq<(int, Seq<char>, int)> {
    processes.map_values(
        |process: (i64, String, u64)| (process.0 as int, process.1@, process.2 as int),
    )
}

/// `dumpsys meminfo`'s "Total PSS by process" section: the pid, the name and the
/// kilobytes of every process in it.
pub fn meminfo_pss_kb(dump: &str) -> (processes: Vec<(i64, String, u64)>)
    ensures
        process_views(processes@) == pss_in(text::lines(dump@)).2,
{
    let chars = text::chars_of(dump);
    let lines = text::lines_of(&chars);
    let ghost all = text::texts(lines@);
    let mut out: Vec<(i64, String, u64)> = Vec::new();
    let mut inside = false;
    let mut over = false;
    let mut i: usize = 0;
    assert(all.take(0) =~= Seq::<Seq<char>>::empty());
    assert(process_views(out@) =~= Seq::<(int, Seq<char>, int)>::empty());
    while i < lines.len()
        invariant
            i <= lines@.len(),
            all == text::texts(lines@),
            (inside, over, process_views(out@)) == pss_in(all.take(i as int)),
        decreases lines@.len() - i,
    {
        let ghost more = all.take(i + 1);
        let ghost before = out@;
        assert(more.drop_last() =~= all.take(i as int));
        assert(more.last() == lines@[i as int]@);
        let line = text::trimmed(&lines[i]);
        if over {
        } else if text::after_prefix(line, "Total PSS by process").is_some() {
            inside = true;
        } else if !inside {
        } else if line.len() == 0 {
            over = true;
        } else {
            match parse_process(line) {
                Some(process) => {
                    let ghost one = (process.0 as int, process.1@, process.2 as int);
                    out.push(process);
                    assert(process_views(out@) =~= process_views(before).push(one));
                },
                None => {},
            }
        }
        i += 1;
    }
    assert(all.take(i as int) =~= all);
    out
}

/// `dumpsys meminfo`'s "Total PSS by process" section: the pid, the name and the
/// bytes of every process in it.
///
/// One call yields both the pid and the name of every process and its PSS, which
/// is what makes the per-app path three round trips rather than one per app.
pub fn parse_meminfo_pss(dump: &str) -> (processes: Vec<(i64, String, u64)>)
    requires
        forall|i: int|
            0 <= i < pss_in(text::lines(dump@)).2.len() ==> (#[trigger] pss_in(
                text::lines(dump@),
            ).2[i]).2 * 1024 <= u64::MAX,
    ensures
        process_views(processes@) == pss_in(text::lines(dump@)).2.map_values(
            |process: (int, Seq<char>, int)| (process.0, process.1, process.2 * 1024),
        ),
{
    let listed = meminfo_pss_kb(dump);
    let ghost kilobytes = process_views(listed@);
    let ghost scale = |process: (int, Seq<char>, int)| (process.0, process.1, process.2 * 1024);
    let mut out: Vec<(i64, String, u64)> = Vec::new();
    assert(kilobytes.take(0).map_values(scale) =~= process_views(out@));
    for process in it: listed
        invariant
            it.seq() == listed@,
            kilobytes == process_views(listed@),
            scale == |process: (int, Seq<char>, int)| (process.0, process.1, process.2 * 1024),
            forall|i: int|
                0 <= i < kilobytes.len() ==> (#[trigger] kilobytes[i]).2 * 1024 <= u64::MAX,
            process_views(out@) == kilobytes.take(it.index() as int).map_values(scale),
    {
        let ghost before = out@;
        let ghost here = kilobytes[it.index() as int];
        assert(here == (process.0 as int, process.1@, process.2 as int));
        out.push((process.0, process.1, process.2 * 1024));
        assert(process_views(out@) =~= process_views(before).push(scale(here)));
        assert(kilobytes.take(it.index() + 1).map_values(scale) =~= kilobytes.take(
            it.index() as int,
        ).map_values(scale).push(scale(here)));
    }
    assert(kilobytes.take(kilobytes.len() as int) =~= kilobytes);
    out
}

/// The processes follow from the trimmed lines.
proof fn lemma_pss_trims(a: Seq<Seq<char>>, b: Seq<Seq<char>>)
    requires
        text::trims(a) == text::trims(b),
    ensures
        pss_in(a) == pss_in(b),
    decreases a.len(),
{
    assert(text::trims(a).len() == a.len() && text::trims(b).len() == b.len());
    if a.len() > 0 {
        assert(text::trims(a.drop_last()) =~= text::trims(a).drop_last());
        assert(text::trims(b.drop_last()) =~= text::trims(b).drop_last());
        assert(text::trims(a).last() == text::trim(a.last()));
        assert(text::trims(b).last() == text::trim(b.last()));
        lemma_pss_trims(a.drop_last(), b.drop_last());
    }
}

/// Whether one of these lines opens the section of processes.
pub open spec fn has_pss(lines: Seq<Seq<char>>) -> bool {
    exists|i: int| 0 <= i < lines.len() && opens_pss(text::trim(#[trigger] lines[i]))
}

proof fn lemma_pss_before(head: Seq<Seq<char>>, lines: Seq<Seq<char>>)
    requires
        !has_pss(head),
    ensures
        pss_in(head + lines) == pss_in(lines),
    decreases head.len() + lines.len(),
{
    let all = head + lines;
    if lines.len() > 0 {
        assert(all.drop_last() =~= head + lines.drop_last());
        assert(all.last() == lines.last());
        lemma_pss_before(head, lines.drop_last());
    } else if head.len() > 0 {
        assert(all =~= head);
        assert(!opens_pss(text::trim(head[head.len() - 1])));
        assert(!has_pss(head.drop_last())) by {
            if has_pss(head.drop_last()) {
                let i = choose|i: int|
                    0 <= i < head.len() - 1 && opens_pss(text::trim(#[trigger] head.drop_last()[i]));
                assert(opens_pss(text::trim(head[i])));
            }
        }
        assert(head.drop_last() + lines =~= head.drop_last());
        lemma_pss_before(head.drop_last(), lines);
    }
}

proof fn lemma_pss_inside(lines: Seq<Seq<char>>)
    ensures
        pss_in(lines).1 ==> pss_in(lines).0,
        has_pss(lines) ==> pss_in(lines).0,
    decreases lines.len(),
{
    if lines.len() > 0 {
        lemma_pss_inside(lines.drop_last());
        if has_pss(lines) && !opens_pss(text::trim(lines.last())) {
            let i = choose|i: int|
                0 <= i < lines.len() && opens_pss(text::trim(#[trigger] lines[i]));
            assert(lines.drop_last()[i] == lines[i]);
        }
    }
}

proof fn lemma_pss_after(lines: Seq<Seq<char>>, tail: Seq<Seq<char>>)
    requires
        pss_in(lines).1,
    ensures
        pss_in(lines + tail) == pss_in(lines),
    decreases tail.len(),
{
    if tail.len() > 0 {
        assert((lines + tail).drop_last() =~= lines + tail.drop_last());
        lemma_pss_after(lines, tail.drop_last());
    } else {
        assert(lines + tail =~= lines);
    }
}

/// Nothing before the heading of the section and nothing after its first blank
/// line reaches the processes: not the list by OOM adjustment, which names the
/// same processes again.
pub proof fn law_only_the_pss_section_counts(head: Seq<char>, dump: Seq<char>, tail: Seq<char>)
    requires
        head.len() == 0 || head.last() == '\n',
        !has_pss(text::lines(head)),
        has_pss(text::lines(dump)),
    ensures
        pss_in(text::lines(head + dump + "\n\n"@ + tail)).2 == pss_in(text::lines(dump)).2,
{
    reveal_strlit("\n\n");
    reveal_strlit("Total PSS by process");
    let own = text::lines(dump);
    let ended = dump.push('\n');
    let rest = seq!['\n'] + tail;
    assert(dump.len() > 0);
    assert(head + dump + "\n\n"@ + tail =~= head + (ended + rest));
    text::lemma_lines_join(head, ended + rest);
    text::lemma_lines_join(ended, rest);
    text::lemma_lines_join(seq!['\n'], tail);
    let blank = Seq::<char>::empty();
    lemma_blank_line();
    let after = text::lines(ended);
    assert(text::lines(rest) =~= seq![blank] + text::lines(tail));
    lemma_pss_before(text::lines(head), after + text::lines(rest));
    lemma_pss_inside(own);
    // The section is over after the blank line, with the dump's own processes.
    let closed = after + seq![blank];
    assert(closed.drop_last() =~= after);
    assert(text::trim(blank) =~= blank);
    assert(!opens_pss(blank));
    if dump.last() == '\n' {
        text::lemma_lines_join(dump, seq!['\n']);
        assert(dump + seq!['\n'] =~= ended);
        assert(after =~= own + seq![blank]);
        assert(after.drop_last() =~= own);
        assert(after.last() == blank);
        assert(pss_in(after).0 && pss_in(after).1 && pss_in(after).2 == pss_in(own).2);
    } else {
        text::lemma_lines_end(dump);
        lemma_pss_trims(after, own);
        assert(pss_in(after) == pss_in(own));
    }
    assert(closed.last() == blank);
    assert(pss_in(closed).1 && pss_in(closed).2 == pss_in(own).2);
    assert(after + text::lines(rest) =~= closed + text::lines(tail));
    lemma_pss_after(closed, text::lines(tail));
}

proof fn lemma_blank_line()
    ensures
        text::lines(seq!['\n']) == seq![Seq::<char>::empty()],
{
    let s = seq!['\n'];
    text::lemma_found(s, '\n', 0);
    assert(s.take(0) =~= Seq::<char>::empty());
    assert(s.skip(1) =~= Seq::<char>::empty());
    assert(text::lines(s.skip(1)) =~= Seq::<Seq<char>>::empty());
    assert(text::lines(s) =~= seq![Seq::<char>::empty()]);
}

/// What a line of `/proc/<pid>/stat` says of a process's CPU time: its pid, and
/// the `utime` and `stime` fields. The second field is the executable name in
/// parentheses and may itself hold spaces and parentheses, so the fields are
/// counted from the last `)`: the two are fields 14 and 15 of the line, which
/// are indexes 11 and 12 of what follows.
pub open spec fn pid_stat_in(line: Seq<char>) -> Option<(int, Seq<char>, Seq<char>)> {
    let words = text::words(line);
    match text::after_last(line, ')') {
        Some(rest) if words.len() > 0 && text::signed_in(words[0]) is Some && text::words(
            rest,
        ).len() > 12 => Some(
            (text::signed_in(words[0])->0, text::words(rest)[11], text::words(rest)[12]),
        ),
        _ => None,
    }
}

/// The pid and the `utime` and `stime` fields of a line of `/proc/<pid>/stat`.
pub fn pid_stat_fields(line: &str) -> (fields: Option<(i64, String, String)>)
    ensures
        match fields {
            Some((pid, utime, stime)) => pid_stat_in(line@) == Some((pid as int, utime@, stime@)),
            None => pid_stat_in(line@) is None,
        },
{
    let chars = text::chars_of(line);
    let words = text::words_of(&chars);
    assert(text::texts(words@).len() == words@.len());
    if words.len() == 0 {
        return None;
    }
    assert(text::texts(words@)[0] == words@[0]@);
    let pid: i64 = match text::parse_signed(&words[0]) {
        Some(pid) => pid,
        None => {
            return None;
        },
    };
    let rest = match text::behind_last(&chars, ')') {
        Some(rest) => rest,
        None => {
            return None;
        },
    };
    let fields = text::words_of(rest);
    assert(text::texts(fields@).len() == fields@.len());
    if fields.len() <= 12 {
        return None;
    }
    assert(text::texts(fields@)[11] == fields@[11]@);
    assert(text::texts(fields@)[12] == fields@[12]@);
    Some((pid, text::string_of(&fields[11]), text::string_of(&fields[12])))
}

/// The stat file of a process.
pub open spec fn stat_path(pid: i64) -> Seq<char> {
    "/proc/"@ + text::signed_decimal(pid as int) + "/stat"@
}

/// Builds the one `cat` that reads every matched process's stat file.
pub fn pid_stat_command(pids: &[i64]) -> (command: String)
    ensures
        command@ == "cat "@ + text::join(pids@.map_values(|pid: i64| stat_path(pid)), " "@)
            + " 2>/dev/null"@,
{
    let ghost goal = pids@.map_values(|pid: i64| stat_path(pid));
    let mut paths: Vec<Vec<char>> = Vec::new();
    let mut i: usize = 0;
    while i < pids.len()
        invariant
            i <= pids.len(),
            goal == pids@.map_values(|pid: i64| stat_path(pid)),
            text::texts(paths@) == goal.take(i as int),
        decreases pids.len() - i,
    {
        let ghost before = paths@;
        let mut path = String::new();
        path.append("/proc/");
        text::push_signed(&mut path, pids[i]);
        path.append("/stat");
        assert(path@ =~= stat_path(pids@[i as int]));
        let chars = text::chars_of(path.as_str());
        let ghost one = chars@;
        paths.push(chars);
        assert(text::texts(paths@) =~= text::texts(before).push(one));
        assert(goal.take(i + 1) =~= goal.take(i as int).push(goal[i as int]));
        i += 1;
    }
    assert(goal.take(i as int) =~= goal);
    let mut out = String::new();
    out.append("cat ");
    text::push_chars(&mut out, &text::joined(&paths, " "));
    out.append(" 2>/dev/null");
    assert(out@ =~= "cat "@ + text::join(goal, " "@) + " 2>/dev/null"@);
    out
}

/// What is measured of one app's process, with its CPU time in the caller's own
/// unit.
#[derive(Debug, Clone, PartialEq)]
pub struct AppMetrics<C> {
    pub process: String,
    /// None for a process that died between the two reads. Zero would look like
    /// an idle app rather than a gone one, and on a counter like a reset.
    pub cpu_seconds: Option<C>,
    pub pss_bytes: Option<u64>,
}

/// What is measured of the first processes that matched.
pub open spec fn apps_of<C>(
    processes: Seq<(i64, String, u64)>,
    cpu_by_pid: Map<i64, C>,
    matches: Seq<bool>,
) -> Seq<(Seq<char>, Option<C>, Option<u64>)>
    decreases processes.len(),
{
    if processes.len() == 0 {
        Seq::empty()
    } else {
        let before = apps_of(processes.drop_last(), cpu_by_pid, matches);
        let (pid, process, pss) = processes.last();
        if matches[processes.len() - 1] {
            before.push(
                (
                    process@,
                    if cpu_by_pid.contains_key(pid) {
                        Some(cpu_by_pid[pid])
                    } else {
                        None
                    },
                    Some(pss),
                ),
            )
        } else {
            before
        }
    }
}

/// Apps with their processes' names as texts.
pub open spec fn app_views<C>(apps: Seq<AppMetrics<C>>) -> Seq<
    (Seq<char>, Option<C>, Option<u64>),
> {
    apps.map_values(|app: AppMetrics<C>| (app.process@, app.cpu_seconds, app.pss_bytes))
}

/// Whether these are the places, in order, at which `matches` says yes.
pub open spec fn are_matches(places: Seq<int>, matches: Seq<bool>) -> bool {
    &&& forall|k: int|
        0 <= k < places.len() ==> 0 <= #[trigger] places[k] < matches.len() && matches[places[k]]
    &&& forall|j: int, k: int|
        0 <= j < k < places.len() ==> #[trigger] places[j] < #[trigger] places[k]
    &&& forall|i: int| 0 <= i < matches.len() && #[trigger] matches[i] ==> places.contains(i)
}

/// Each app's numbers are those of its own process. The apps are the processes that
/// matched, every one of them and no other, in their order: each with the name and
/// the PSS of its process, and with the CPU time that belongs to its own pid, or none
/// where there is none for it.
pub proof fn law_each_app_has_its_own_numbers<C>(
    processes: Seq<(i64, String, u64)>,
    cpu_by_pid: Map<i64, C>,
    matches: Seq<bool>,
)
    requires
        matches.len() == processes.len(),
    ensures
        exists|places: Seq<int>| #[trigger]
            are_matches(places, matches) && {
                let apps = apps_of(processes, cpu_by_pid, matches);
                &&& apps.len() == places.len()
                &&& forall|k: int|
                    0 <= k < places.len() ==> {
                        let (pid, name, pss) = processes[places[k]];
                        &&& (#[trigger] apps[k]).0 == name@
                        &&& apps[k].2 == Some(pss)
                        &&& cpu_by_pid.contains_key(pid) ==> apps[k].1 == Some(cpu_by_pid[pid])
                        &&& !cpu_by_pid.contains_key(pid) ==> apps[k].1 is None
                    }
            },
    decreases processes.len(),
{
    let apps = apps_of(processes, cpu_by_pid, matches);
    if processes.len() == 0 {
        assert(are_matches(Seq::empty(), matches));
    } else {
        let n = processes.len() - 1;
        let fewer = processes.drop_last();
        let shorter = matches.drop_last();
        law_each_app_has_its_own_numbers(fewer, cpu_by_pid, shorter);
        lemma_apps_of(fewer, cpu_by_pid, shorter, matches);
        let before = apps_of(fewer, cpu_by_pid, shorter);
        let places = choose|places: Seq<int>| #[trigger]
            are_matches(places, shorter) && {
                &&& before.len() == places.len()
                &&& forall|k: int|
                    0 <= k < places.len() ==> {
                        let (pid, name, pss) = fewer[places[k]];
                        &&& (#[trigger] before[k]).0 == name@
                        &&& before[k].2 == Some(pss)
                        &&& cpu_by_pid.contains_key(pid) ==> before[k].1 == Some(cpu_by_pid[pid])
                        &&& !cpu_by_pid.contains_key(pid) ==> before[k].1 is None
                    }
            };
        let more = if matches[n] {
            places.push(n)
        } else {
            places
        };
        assert forall|i: int| 0 <= i < matches.len() && #[trigger] matches[i] implies more.contains(
            i,
        ) by {
            if i < n {
                assert(shorter[i]);
                let k = choose|k: int| 0 <= k < places.len() && places[k] == i;
                assert(more[k] == i);
            } else {
                assert(more[places.len() as int] == n);
            }
        }
        assert forall|k: int| 0 <= k < more.len() implies 0 <= #[trigger] more[k] < matches.len()
            && matches[more[k]] by {
            if k < places.len() {
                assert(0 <= places[k] < shorter.len() && shorter[places[k]]);
            }
        }
        assert forall|j: int, k: int| 0 <= j < k < more.len() implies #[trigger] more[j]
            < #[trigger] more[k] by {
            assert(0 <= places[j] < shorter.len());
            if k < places.len() {
                assert(places[j] < places[k]);
            }
        }
        assert(are_matches(more, matches));
        assert forall|k: int| 0 <= k < more.len() implies {
            let (pid, name, pss) = processes[more[k]];
            &&& (#[trigger] apps[k]).0 == name@
            &&& apps[k].2 == Some(pss)
            &&& cpu_by_pid.contains_key(pid) ==> apps[k].1 == Some(cpu_by_pid[pid])
            &&& !cpu_by_pid.contains_key(pid) ==> apps[k].1 is None
        } by {
            if k < places.len() {
                assert(apps[k] == before[k]);
                assert(0 <= places[k] < shorter.len());
                assert(fewer[places[k]] == processes[more[k]]);
            }
        }
    }
}

proof fn lemma_apps_of<C>(
    processes: Seq<(i64, String, u64)>,
    cpu_by_pid: Map<i64, C>,
    matches: Seq<bool>,
    longer: Seq<bool>,
)
    requires
        processes.len() <= matches.len() <= longer.len(),
        forall|i: int| 0 <= i < matches.len() ==> #[trigger] matches[i] == longer[i],
    ensures
        apps_of(processes, cpu_by_pid, matches) == apps_of(processes, cpu_by_pid, longer),
    decreases processes.len(),
{
    if processes.len() > 0 {
        lemma_apps_of(processes.drop_last(), cpu_by_pid, matches, longer);
        assert(matches[processes.len() - 1] == longer[processes.len() - 1]);
    }
}

/// Joins PSS and CPU into the per-app metrics for the processes that matched.
pub fn assemble_apps<C: Copy>(
    processes: &[(i64, String, u64)],
    cpu_by_pid: &HashMap<i64, C>,
    matches: &[bool],
) -> (apps: Vec<AppMetrics<C>>)
    requires
        matches@.len() == processes@.len(),
    ensures
        app_views(apps@) == apps_of(processes@, cpu_by_pid@, matches@),
{
    let mut apps: Vec<AppMetrics<C>> = Vec::new();
    let mut i: usize = 0;
    assert(processes@.take(0) =~= Seq::<(i64, String, u64)>::empty());
    assert(app_views(apps@) =~= Seq::<(Seq<char>, Option<C>, Option<u64>)>::empty());
    while i < processes.len()
        invariant
            i <= processes.len(),
            matches@.len() == processes@.len(),
            app_views(apps@) == apps_of(processes@.take(i as int), cpu_by_pid@, matches@),
        decreases processes.len() - i,
    {
        let ghost before = apps@;
        assert(processes@.take(i + 1).drop_last() =~= processes@.take(i as int));
        if matches[i] {
            let process = &processes[i];
            let cpu_seconds = match cpu_by_pid.get(&process.0) {
                Some(cpu) => Some(*cpu),
                None => None,
            };
            let app = AppMetrics {
                process: process.1.clone(),
                cpu_seconds,
                pss_bytes: Some(process.2),
            };
            let ghost one = (app.process@, app.cpu_seconds, app.pss_bytes);
            apps.push(app);
            assert(app_views(apps@) =~= app_views(before).push(one));
        }
        i += 1;
    }
    assert(processes@.take(i as int) =~= processes@);
    apps
}

/// The lines of a section, one after the other.
pub open spec fn joined_lines(lines: Seq<Seq<char>>) -> Seq<char>
    decreases lines.len(),
{
    if lines.len() == 0 {
        Seq::empty()
    } else {
        joined_lines(lines.drop_last()) + lines.last()
    }
}

/// Each marker starts its own section, which holds the lines up to the next marker and
/// nothing else: a section that is missing or empty does not shift the next one.
pub proof fn law_each_marker_starts_its_own_section(
    before: Seq<Seq<char>>,
    marker: Seq<char>,
    body: Seq<Seq<char>>,
)
    requires
        marker_in(marker) is Some,
        forall|i: int| 0 <= i < body.len() ==> marker_in(#[trigger] body[i]) is None,
    ensures
        sections_in(before + seq![marker] + body) == sections_in(before).push(
            (marker_in(marker)->0, joined_lines(body)),
        ),
    decreases body.len(),
{
    let all = before + seq![marker] + body;
    if body.len() == 0 {
        assert(all.drop_last() =~= before);
        assert(all.last() == marker);
    } else {
        let shorter = body.drop_last();
        assert forall|i: int| 0 <= i < shorter.len() implies marker_in(
            #[trigger] shorter[i],
        ) is None by {
            assert(shorter[i] == body[i]);
        }
        law_each_marker_starts_its_own_section(before, marker, shorter);
        assert(all.drop_last() =~= before + seq![marker] + shorter);
        assert(all.last() == body.last());
        assert(marker_in(body[body.len() - 1]) is None);
        let done = sections_in(before).push((marker_in(marker)->0, joined_lines(shorter)));
        assert(done.drop_last() =~= sections_in(before));
    }
}

/// A marker is three hyphens and the section's name, whatever white space follows.
pub proof fn law_a_marker_names_its_section(name: Seq<char>, end: char)
    requires
        name.len() > 0,
        !text::is_white(name.last()),
        text::is_white(end),
    ensures
        marker_in("---"@ + name) == Some(name),
        marker_in(("---"@ + name).push(end)) == Some(name),
{
    reveal_strlit("---");
    let line = "---"@ + name;
    assert(line.push(end).drop_last() =~= line);
    assert(line.last() == name.last());
    assert(text::trim_end(line) == line);
    assert(text::trim_end(line.push(end)) == text::trim_end(line));
    assert("---"@.is_prefix_of(line)) by {
        assert(line.take("---"@.len() as int) =~= "---"@);
    }
    assert(line.skip("---"@.len() as int) =~= name);
}

/// The first line that gives a number for a name decides, and lines for other names
/// do not matter.
pub proof fn law_memory_is_read_by_its_name(
    before: Seq<Seq<char>>,
    line: Seq<char>,
    after: Seq<Seq<char>>,
    name: Seq<char>,
)
    requires
        forall|i: int| 0 <= i < before.len() ==> kb_in(#[trigger] before[i], name) is None,
    ensures
        kb_in(line, name) is Some ==> first_kb(before + seq![line] + after, name) == kb_in(
            line,
            name,
        ),
        first_kb(before, name) is None,
    decreases before.len(),
{
    let all = before + seq![line] + after;
    if before.len() > 0 {
        let rest = before.drop_first();
        assert(all[0] == before[0]);
        assert(all.drop_first() =~= rest + seq![line] + after);
        assert forall|i: int| 0 <= i < rest.len() implies kb_in(
            #[trigger] rest[i],
            name,
        ) is None by {
            assert(rest[i] == before[i + 1]);
        }
        law_memory_is_read_by_its_name(rest, line, after, name);
    } else {
        assert(all[0] == line);
    }
}

/// A line of the process listing reads back: the number behind its name is the process,
/// and the one in front of it its memory.
pub proof fn law_a_process_line_reads_back(kb: u64, name: Seq<char>, pid: i64, tail: Seq<char>)
    requires
        pid >= 0,
        name.len() > 0,
        !text::is_white(name[0]),
        !text::is_white(name.last()),
        tail.len() > 0,
        !text::is_white(tail.last()),
        !text::is_digit(tail[0]),
        forall|i: int|
            0 <= i <= name.len() ==> !#[trigger] text::stands_at(
                name + " (pid "@ + text::signed_decimal(pid as int) + tail,
                "(pid "@,
                i,
            ),
    ensures
        process_in(
            text::decimal(kb as nat) + "K: "@ + name + " (pid "@ + text::signed_decimal(
                pid as int,
            ) + tail,
        ) == Some((pid as int, name, kb as int)),
{
    reveal_strlit("K: ");
    reveal_strlit(" (pid ");
    reveal_strlit("(pid ");
    let size = text::decimal(kb as nat);
    let number = text::signed_decimal(pid as int);
    let line = size + "K: "@ + name + " (pid "@ + number + tail;
    text::law_decimal_reads_back(kb as nat);
    text::lemma_decimal_is_digits(kb as nat);
    text::lemma_decimal_is_digits(pid as nat);
    text::law_a_signed_number_reads_back(pid);
    let n = size.len() as int;
    assert forall|i: int| 0 <= i < n + 1 implies #[trigger] line[i] != ':' by {
        if i < n {
            assert(line[i] == size[i]);
            assert(text::is_digit(size[i]));
        }
    }
    text::lemma_found(line, ':', n + 1);
    let front = line.take(n + 1);
    assert(front =~= size.push('K'));
    assert(text::is_digit(size[0]));
    assert(!text::is_white(front[0]) && !text::is_white(front.last()));
    assert(text::trim(front) == front);
    assert(front.drop_last() =~= size);
    assert(text::is_digit(size[n - 1]));
    text::law_only_the_end_is_trimmed(size, 'K');
    assert(text::trim_end_of(front, 'K') == size);
    assert forall|i: int| 0 <= i < n implies #[trigger] size[i] != ',' by {
        assert(text::is_digit(size[i]));
    }
    text::lemma_nothing_taken_out(size, ',');
    let back = line.skip(n + 2);
    let rest = name + " (pid "@ + number + tail;
    assert(back =~= seq![' '] + rest);
    text::law_only_the_end_is_trimmed(rest, ' ');
    assert(rest[0] == name[0]);
    assert(rest.last() == tail.last());
    assert(text::trim(back) == rest);
    let at = (name.len() + 1) as int;
    assert(rest.subrange(at, at + 5) =~= "(pid "@);
    text::lemma_first_stands(rest, "(pid "@, 0, at);
    let before = rest.take(at);
    assert(before =~= name.push(' '));
    text::law_only_the_end_is_trimmed(name, ' ');
    assert(before[0] == name[0]);
    assert(text::trim(before) == name);
    let after = rest.skip(at + 5);
    assert(after =~= Seq::<char>::empty() + number + tail);
    text::law_the_first_number_is_taken_whole(Seq::empty(), number, tail);
}

/// A process's times are read by the numbers that the kernel gives its fields, whatever
/// its name holds: the fourteenth is the time in user mode and the fifteenth that in the
/// kernel, and the fields behind the name begin with the third.
pub proof fn law_a_process_times_are_read_by_their_place(
    pid: i64,
    name: Seq<char>,
    fields: Seq<Seq<char>>,
)
    requires
        fields.len() >= 13,
        forall|i: int|
            0 <= i < fields.len() ==> text::is_word(#[trigger] fields[i])
                && !fields[i].contains(')'),
    ensures
        pid_stat_in(
            text::signed_decimal(pid as int) + " ("@ + name + ") "@ + text::join(
                fields,
                seq![' '],
            ),
        ) == Some((pid as int, fields[14 - 3], fields[15 - 3])),
{
    reveal_strlit(" (");
    reveal_strlit(") ");
    reveal_strlit("-");
    let number = text::signed_decimal(pid as int);
    let joined = text::join(fields, seq![' ']);
    let line = number + " ("@ + name + ") "@ + joined;
    let size = if pid < 0 {
        (-(pid as int)) as nat
    } else {
        pid as nat
    };
    text::lemma_decimal_is_digits(size);
    text::law_a_signed_number_reads_back(pid);
    assert forall|i: int| 0 <= i < number.len() implies !text::is_white(#[trigger] number[i]) by {
        if pid < 0 {
            if i > 0 {
                assert(number[i] == text::decimal(size)[i - 1]);
                assert(text::is_digit(text::decimal(size)[i - 1]));
            }
        } else {
            assert(text::is_digit(text::decimal(size)[i]));
        }
    }
    let behind = seq!['('] + name + ") "@ + joined;
    assert(line =~= number + seq![' '] + behind);
    text::law_words_are_parted_by_white_space(number, ' ', behind);
    assert(text::words(line)[0] == number);
    text::law_words_read_back(fields);
    lemma_join_holds_none(fields);
    let cut = (number.len() + 2 + name.len() + 1) as int;
    assert(line[cut - 1] == ')');
    assert forall|k: int| cut <= k < line.len() implies #[trigger] line[k] != ')' by {
        if k > cut {
            assert(line[k] == joined[k - cut - 1]);
        }
    }
    text::lemma_after_last(line, ')', cut);
    let rest = line.skip(cut);
    assert(rest =~= seq![' '] + joined);
    text::law_words_are_parted_by_white_space(fields[0], ' ', joined);
    assert(text::words(rest) == fields);
}

proof fn lemma_join_holds_none(fields: Seq<Seq<char>>)
    requires
        forall|i: int| 0 <= i < fields.len() ==> !(#[trigger] fields[i]).contains(')'),
    ensures
        forall|k: int|
            0 <= k < text::join(fields, seq![' ']).len() ==> #[trigger] text::join(
                fields,
                seq![' '],
            )[k] != ')',
    decreases fields.len(),
{
    let joined = text::join(fields, seq![' ']);
    if fields.len() == 1 {
        assert forall|k: int| 0 <= k < joined.len() implies #[trigger] joined[k] != ')' by {
            assert(!fields[0].contains(')'));
            assert(fields[0].contains(joined[k]));
        }
    } else if fields.len() > 1 {
        let front = fields.drop_last();
        assert forall|i: int| 0 <= i < front.len() implies !(#[trigger] front[i]).contains(')') by {
            assert(front[i] == fields[i]);
        }
        lemma_join_holds_none(front);
        let head = text::join(front, seq![' ']);
        let last = fields[fields.len() - 1];
        assert forall|k: int| 0 <= k < joined.len() implies #[trigger] joined[k] != ')' by {
            if k < head.len() {
                assert(joined[k] == head[k]);
            } else if k > head.len() {
                assert(joined[k] == last[k - head.len() - 1]);
                assert(!last.contains(')'));
                assert(last.contains(last[k - head.len() - 1]));
            }
        }
    }
}

} // verus!
