//! Worker-count selection.

use crate::strings::{
    begins, char_lists, line_list, lines_of, parts, split_chars, starts_with, trim_chars, trimmed,
};
use crate::text::{
    chars_of, decimal, decimal_text, joined3, parse_u32, parse_u32_error, text_of, unsigned_text,
    unsigned_value,
};
use vstd::prelude::*;

verus! {

/// The message of the error that parsing a text as a `usize` ends in.
pub uninterp spec fn parse_usize_error(text: Seq<char>) -> Seq<char>;

/// `str::parse::<usize>`: succeeds on an optional plus sign followed by decimal digits that represent
/// a number in range, and returns this number. The message of the error is only named.
#[verifier::external_body]
pub(crate) fn parse_usize(text: &str) -> (result: Result<usize, String>)
    ensures
        match result {
            Ok(n) => unsigned_text(text@) && n == unsigned_value(text@),
            Err(message) => message@ == parse_usize_error(text@) && !(unsigned_text(text@)
                && unsigned_value(text@) <= usize::MAX),
        },
{
    text.parse::<usize>().map_err(|error| error.to_string())
}

/// The number in a CPU list, or the error message.
pub open spec fn cpu_index(text: Seq<char>) -> Result<nat, Seq<char>> {
    if unsigned_text(text) && unsigned_value(text) <= usize::MAX {
        Ok(unsigned_value(text))
    } else {
        Err("invalid CPU index `"@ + text + "`: "@ + parse_usize_error(text))
    }
}

/// Parses one CPU index from a Linux affinity list.
pub fn parse_cpu_index(text: &str) -> (result: Result<usize, String>)
    ensures
        match cpu_index(text@) {
            Ok(n) => result is Ok && result->Ok_0 == n,
            Err(error) => result is Err && result->Err_0@ == error,
        },
{
    match parse_usize(text) {
        Ok(n) => Ok(n),
        Err(message) => {
            let mut error = joined3("invalid CPU index `", text, "`: ");
            error.append(message.as_str());
            Err(error)
        },
    }
}

/// The position of the first dash from `i` on.
pub open spec fn dash_at(text: Seq<char>, i: nat) -> Option<int>
    decreases text.len() - i,
{
    if i >= text.len() {
        None
    } else if text[i as int] == '-' {
        Some(i as int)
    } else {
        dash_at(text, i + 1)
    }
}

/// The numbers from `start` to `end`.
pub open spec fn number_range(start: nat, end: nat) -> Seq<nat> {
    Seq::new((end - start + 1) as nat, |i: int| (start + i) as nat)
}

/// The CPUs of one segment of a list, or the error message.
pub open spec fn segment_cpus(text: Seq<char>) -> Result<Seq<nat>, Seq<char>> {
    let segment = trimmed(text);
    if segment.len() == 0 {
        Err("empty CPU-list segment"@)
    } else {
        match dash_at(segment, 0) {
            None => match cpu_index(segment) {
                Err(error) => Err(error),
                Ok(n) => Ok(seq![n]),
            },
            Some(at) => match cpu_index(trimmed(segment.take(at))) {
                Err(error) => Err(error),
                Ok(start) => match cpu_index(trimmed(segment.skip(at + 1))) {
                    Err(error) => Err(error),
                    Ok(end) => if start > end {
                        Err("descending CPU range"@)
                    } else {
                        Ok(number_range(start, end))
                    },
                },
            },
        }
    }
}

/// The CPUs of the first `n` segments, or the first error message.
pub open spec fn listed_cpus(segments: Seq<Seq<char>>, n: nat) -> Result<Seq<nat>, Seq<char>>
    decreases n,
{
    if n == 0 {
        Ok(Seq::empty())
    } else {
        match listed_cpus(segments, (n - 1) as nat) {
            Err(error) => Err(error),
            Ok(cpus) => match segment_cpus(segments[n - 1]) {
                Err(error) => Err(error),
                Ok(more) => Ok(cpus + more),
            },
        }
    }
}

/// The CPUs that a list stands for, or the error message.
pub open spec fn cpu_list(text: Seq<char>) -> Result<Seq<nat>, Seq<char>> {
    listed_cpus(parts(text, ','), parts(text, ',').len())
}

proof fn lemma_listed_err(segments: Seq<Seq<char>>, k: nat, n: nat)
    requires
        k <= n,
        listed_cpus(segments, k) is Err,
    ensures
        listed_cpus(segments, n) == listed_cpus(segments, k),
    decreases n,
{
    if k < n {
        lemma_listed_err(segments, k, (n - 1) as nat);
    }
}

/// CPU numbers as mathematical values.
pub open spec fn numbers(cpus: Seq<usize>) -> Seq<nat> {
    cpus.map_values(|c: usize| c as nat)
}

/// Returns a part of a list of characters.
fn part_of(chars: &[char], start: usize, end: usize) -> (part: Vec<char>)
    requires
        start <= end <= chars@.len(),
    ensures
        part@ == chars@.subrange(start as int, end as int),
{
    let mut part: Vec<char> = Vec::new();
    let mut i: usize = start;
    while i < end
        invariant
            start <= i <= end <= chars@.len(),
            part@ == chars@.subrange(start as int, i as int),
        decreases end - i,
    {
        part.push(chars[i]);
        proof {
            assert(chars@.subrange(start as int, i as int + 1) =~= chars@.subrange(
                start as int,
                i as int,
            ).push(chars@[i as int]));
        }
        i += 1;
    }
    part
}

/// Returns the position of the first dash.
fn find_dash(chars: &[char]) -> (found: Option<usize>)
    ensures
        match found {
            Some(at) => dash_at(chars@, 0) == Some(at as int) && at < chars@.len(),
            None => dash_at(chars@, 0) is None,
        },
{
    let mut i: usize = 0;
    while i < chars.len()
        invariant
            0 <= i <= chars@.len(),
            dash_at(chars@, 0) == dash_at(chars@, i as nat),
        decreases chars@.len() - i,
    {
        if chars[i] == '-' {
            return Some(i);
        }
        i += 1;
    }
    None
}

/// Appends the CPUs of one segment.
fn add_segment(cpus: &mut Vec<usize>, text: &[char]) -> (result: Result<(), String>)
    ensures
        match segment_cpus(text@) {
            Ok(more) => result is Ok && numbers(final(cpus)@) == numbers(old(cpus)@) + more,
            Err(error) => result is Err && result->Err_0@ == error,
        },
{
    let ghost had = numbers(cpus@);
    let segment = trim_chars(text);
    if segment.len() == 0 {
        return Err("empty CPU-list segment".to_owned());
    }
    match find_dash(segment.as_slice()) {
        None => {
            let index = text_of(segment.as_slice());
            match parse_cpu_index(index.as_str()) {
                Err(error) => Err(error),
                Ok(n) => {
                    cpus.push(n);
                    proof {
                        assert(numbers(cpus@) =~= had + seq![n as nat]);
                    }
                    Ok(())
                },
            }
        },
        Some(at) => {
            let first = part_of(segment.as_slice(), 0, at);
            let second = part_of(segment.as_slice(), at + 1, segment.len());
            proof {
                assert(first@ =~= segment@.take(at as int));
                assert(second@ =~= segment@.skip(at + 1));
            }
            let first_trimmed = trim_chars(first.as_slice());
            let first_text = text_of(first_trimmed.as_slice());
            let start = match parse_cpu_index(first_text.as_str()) {
                Err(error) => return Err(error),
                Ok(start) => start,
            };
            let second_trimmed = trim_chars(second.as_slice());
            let second_text = text_of(second_trimmed.as_slice());
            let end = match parse_cpu_index(second_text.as_str()) {
                Err(error) => return Err(error),
                Ok(end) => end,
            };
            if start > end {
                return Err("descending CPU range".to_owned());
            }
            let mut n: usize = start;
            proof {
                assert(numbers(cpus@) =~= had + number_range(start as nat, end as nat).take(0));
            }
            loop
                invariant_except_break
                    start <= n <= end,
                    numbers(cpus@) == had + number_range(start as nat, end as nat).take(n - start),
                invariant
                    start <= end,
                ensures
                    numbers(cpus@) == had + number_range(start as nat, end as nat),
                decreases end - n,
            {
                let ghost before = cpus@;
                let ghost range = number_range(start as nat, end as nat);
                cpus.push(n);
                proof {
                    assert(numbers(cpus@) =~= numbers(before).push(n as nat));
                    assert(range.take(n - start + 1) =~= range.take(n - start).push(n as nat));
                    assert(numbers(cpus@) =~= had + range.take(n - start + 1));
                }
                if n == end {
                    proof {
                        assert(range.take(n - start + 1) =~= range);
                    }
                    break;
                }
                n += 1;
            }
            Ok(())
        },
    }
}

/// Parses one Linux CPU-list string such as `0-3,8-11`.
pub fn parse_cpu_list(text: &str) -> (result: Result<Vec<usize>, String>)
    ensures
        match cpu_list(text@) {
            Ok(cpus) => result is Ok && numbers(result->Ok_0@) == cpus,
            Err(error) => result is Err && result->Err_0@ == error,
        },
{
    let chars = chars_of(text);
    let segments = split_chars(chars.as_slice(), ',');
    let ghost texts = parts(text@, ',');
    let mut cpus: Vec<usize> = Vec::new();
    proof {
        assert(numbers(cpus@) =~= Seq::<nat>::empty());
        assert(char_lists(segments@).len() == segments@.len());
    }
    let mut i: usize = 0;
    while i < segments.len()
        invariant
            0 <= i <= segments@.len(),
            texts == parts(text@, ','),
            texts == char_lists(segments@),
            listed_cpus(texts, i as nat) == Ok::<Seq<nat>, Seq<char>>(numbers(cpus@)),
        decreases segments@.len() - i,
    {
        proof {
            assert(texts[i as int] == segments@[i as int]@);
        }
        match add_segment(&mut cpus, segments[i].as_slice()) {
            Err(error) => {
                proof {
                    lemma_listed_err(texts, (i + 1) as nat, texts.len());
                }
                return Err(error);
            },
            Ok(_) => {},
        }
        i += 1;
    }
    Ok(cpus)
}

/// The rest of the first line, from `i` on, that starts with the label of the allowed CPUs.
pub open spec fn allowed_text(lines: Seq<Seq<char>>, i: nat) -> Option<Seq<char>>
    decreases lines.len() - i,
{
    if i >= lines.len() {
        None
    } else if begins(lines[i as int], "Cpus_allowed_list:"@) {
        Some(trimmed(lines[i as int].skip("Cpus_allowed_list:"@.len() as int)))
    } else {
        allowed_text(lines, i + 1)
    }
}

/// Returns the logical CPU indices that a process status allows, from the text of the status.
pub fn allowed_cpu_indices(status: &str) -> (result: Result<Vec<usize>, String>)
    ensures
        match allowed_text(line_list(status@), 0) {
            None => result is Err && result->Err_0@ == "missing Cpus_allowed_list"@,
            Some(text) => match cpu_list(text) {
                Ok(cpus) => result is Ok && numbers(result->Ok_0@) == cpus,
                Err(error) => result is Err && result->Err_0@ == error,
            },
        },
{
    let lines = lines_of(status);
    let ghost texts = line_list(status@);
    let label = chars_of("Cpus_allowed_list:");
    let mut i: usize = 0;
    while i < lines.len()
        invariant
            0 <= i <= lines@.len(),
            texts == line_list(status@),
            texts == char_lists(lines@),
            label@ == "Cpus_allowed_list:"@,
            allowed_text(texts, 0) == allowed_text(texts, i as nat),
        decreases lines@.len() - i,
    {
        proof {
            assert(texts[i as int] == lines@[i as int]@);
        }
        let line = text_of(lines[i].as_slice());
        if starts_with(line.as_str(), "Cpus_allowed_list:") {
            let rest = part_of(lines[i].as_slice(), label.len(), lines[i].len());
            proof {
                assert(rest@ =~= lines@[i as int]@.skip(label@.len() as int));
            }
            let allowed = trim_chars(rest.as_slice());
            let text = text_of(allowed.as_slice());
            return parse_cpu_list(text.as_str());
        }
        i += 1;
    }
    Err("missing Cpus_allowed_list".to_owned())
}

/// Parses one numeric CPU topology attribute from the text of its file.
pub fn parse_topology_id(raw: &str, path: &str) -> (result: Result<u32, String>)
    ensures
        ({
            let text = trimmed(raw@);
            if unsigned_text(text) && unsigned_value(text) <= u32::MAX {
                result is Ok && result->Ok_0 == unsigned_value(text)
            } else {
                result is Err && result->Err_0@ == "invalid topology value in "@ + path@ + ": "@
                    + parse_u32_error(text)
            }
        }),
{
    let chars = chars_of(raw);
    let allowed = trim_chars(chars.as_slice());
    let text = text_of(allowed.as_slice());
    match parse_u32(text.as_str()) {
        Ok(n) => Ok(n),
        Err(message) => {
            let mut error = joined3("invalid topology value in ", path, ": ");
            error.append(message.as_str());
            Err(error)
        },
    }
}

/// The path of one CPU topology attribute.
pub fn topology_path(cpu_index: usize, name: &str) -> (path: String)
    ensures
        path@ == "/sys/devices/system/cpu/cpu"@ + decimal_text(cpu_index as nat) + "/topology/"@
            + name@,
{
    let index = decimal(cpu_index as u64);
    let mut path = joined3("/sys/devices/system/cpu/cpu", index.as_str(), "/topology/");
    path.append(name);
    path
}

/// Counts the different pairs of a package and a core: the number of physical cores, or nothing where
/// there is none.
pub fn physical_core_count(cores: &Vec<(u32, u32)>) -> (count: Option<usize>)
    ensures
        match count {
            Some(n) => n > 0 && n == cores@.to_set().len(),
            None => cores@.to_set().len() == 0,
        },
{
    let mut n: usize = 0;
    let mut i: usize = 0;
    proof {
        assert(cores@.take(0).to_set() =~= Set::<(u32, u32)>::empty());
    }
    while i < cores.len()
        invariant
            0 <= n <= i <= cores@.len(),
            n == cores@.take(i as int).to_set().len(),
        decreases cores@.len() - i,
    {
        let mut seen = false;
        let mut j: usize = 0;
        while j < i
            invariant
                0 <= j <= i < cores@.len(),
                seen == exists|k: int| 0 <= k < j && #[trigger] cores@[k] == cores@[i as int],
            decreases i - j,
        {
            if cores[j].0 == cores[i].0 && cores[j].1 == cores[i].1 {
                seen = true;
                proof {
                    assert(cores@[j as int] == cores@[i as int]);
                }
            }
            j += 1;
        }
        proof {
            let had = cores@.take(i as int);
            let x = cores@[i as int];
            assert(cores@.take(i as int + 1) =~= had.push(x));
            assert(had.push(x).to_set() =~= had.to_set().insert(x)) by {
                broadcast use vstd::seq_lib::group_seq_properties;

            }
            vstd::seq_lib::seq_to_set_is_finite(had);
            if seen {
                let k = choose|k: int| 0 <= k < i && #[trigger] cores@[k] == x;
                assert(had[k] == x);
                assert(had.to_set().contains(x));
            } else {
                if had.to_set().contains(x) {
                    assert(had.contains(x));
                    let k = choose|k: int| 0 <= k < had.len() && had[k] == x;
                    assert(cores@[k] == x);
                }
            }
        }
        if !seen {
            n += 1;
        }
        i += 1;
    }
    proof {
        assert(cores@.take(cores@.len() as int) =~= cores@);
    }
    if n > 0 {
        Some(n)
    } else {
        None
    }
}

} // verus!
