//! Memory use as the system reports it.

use vstd::prelude::*;

use crate::text::{
    begins_with, chars_of, find, find_char, first_line, first_word, is_space, later_lines,
    law_first_word, law_lines, law_number, law_trimmed, lemma_find_char, number_of, parse_number,
    split_line, starts_with, trim, trimmed, word,
};

verus! {

/// The number after a label in a status report: the first word after it in the first line that
/// begins with it. Zero if there is no such line, or no number there.
pub open spec fn reported(text: Seq<char>, label: Seq<char>) -> nat
    decreases text.len(),
    via reported_decreases
{
    if text.len() == 0 {
        0
    } else {
        let line = first_line(text);
        if begins_with(line, label) {
            match first_word(line.skip(label.len() as int)) {
                None => 0,
                Some(w) => match number_of(w, u64::MAX as nat) {
                    None => 0,
                    Some(n) => n,
                },
            }
        } else {
            reported(later_lines(text), label)
        }
    }
}

#[via_fn]
proof fn reported_decreases(text: Seq<char>, label: Seq<char>) {
    lemma_find_bounds(text, '\n');
}

proof fn lemma_find_bounds(s: Seq<char>, c: char)
    ensures
        0 <= find_char(s, c) <= s.len(),
    decreases s.len(),
{
    if s.len() > 0 && s[0] != c {
        lemma_find_bounds(s.skip(1), c);
    }
}

/// The number after a label in a status report.
fn labelled(text: &str, label: &str) -> (n: u64)
    ensures
        n == reported(text@, label@),
{
    let chars: Vec<char> = chars_of(text);
    let prefix: Vec<char> = chars_of(label);
    let mut rest: &[char] = chars.as_slice();
    while rest.len() > 0
        invariant
            prefix@ == label@,
            reported(text@, label@) == reported(rest@, label@),
        decreases rest@.len(),
    {
        let (line, later) = split_line(rest);
        if starts_with(line, prefix.as_slice()) {
            let value: &[char] = vstd::slice::slice_subrange(line, prefix.len(), line.len());
            assert(value@ =~= line@.skip(label@.len() as int));
            return match word(value) {
                Some(w) => match parse_number(w, u64::MAX) {
                    Some(n) => n,
                    None => 0,
                },
                None => 0,
            };
        }
        rest = later;
    }
    0
}

/// The resident memory that `/proc/self/status` reports, in kilobytes.
pub fn rss_kb(status: &str) -> (kb: u64)
    ensures
        kb == reported(status@, "VmRSS:"@),
{
    labelled(status, "VmRSS:")
}

/// The most resident memory so far that `/proc/self/status` reports, in kilobytes.
pub fn hwm_kb(status: &str) -> (kb: u64)
    ensures
        kb == reported(status@, "VmHWM:"@),
{
    labelled(status, "VmHWM:")
}

/// The field after the first comma of a line, if there is one.
pub open spec fn second_field(line: Seq<char>) -> Option<Seq<char>> {
    let k = find_char(line, ',');
    if k < line.len() {
        let rest = line.skip(k + 1);
        Some(rest.take(find_char(rest, ',')))
    } else {
        None
    }
}

/// The memory that a report of processes gives for one: the second field of the first line
/// whose first field is the process, without the white space around it. `None` if a line
/// before that does not begin with a process, if there is no such line, or if it has no second
/// field.
pub open spec fn process_memory(text: Seq<char>, pid: u32) -> Option<Seq<char>>
    decreases text.len(),
    via process_memory_decreases
{
    if text.len() == 0 {
        None
    } else {
        let line = first_line(text);
        match number_of(trimmed(line.take(find_char(line, ','))), u32::MAX as nat) {
            None => None,
            Some(p) => if p == pid {
                match second_field(line) {
                    None => None,
                    Some(field) => Some(trimmed(field)),
                }
            } else {
                process_memory(later_lines(text), pid)
            },
        }
    }
}

#[via_fn]
proof fn process_memory_decreases(text: Seq<char>, pid: u32) {
    lemma_find_bounds(text, '\n');
}

/// The memory that a report of processes gives for one, as the text of a number of megabytes.
pub fn gpu_used_mb(report: &str, pid: u32) -> (mb: Option<Vec<char>>)
    ensures
        mb is Some <==> process_memory(report@, pid) is Some,
        mb matches Some(mb) ==> Some(mb@) == process_memory(report@, pid),
{
    let chars: Vec<char> = chars_of(report);
    let mut rest: &[char] = chars.as_slice();
    while rest.len() > 0
        invariant
            process_memory(report@, pid) == process_memory(rest@, pid),
        decreases rest@.len(),
    {
        let (line, later) = split_line(rest);
        let n: usize = line.len();
        let k: usize = find(line, ',');
        let first: &[char] = vstd::slice::slice_subrange(line, 0, k);
        assert(first@ =~= line@.take(find_char(line@, ',')));
        match parse_number(trim(first), u32::MAX as u64) {
            Some(p) => {
                if p == pid as u64 {
                    if k == n {
                        return None;
                    }
                    let after: &[char] = vstd::slice::slice_subrange(line, k + 1, n);
                    let end: usize = find(after, ',');
                    let field: &[char] = vstd::slice::slice_subrange(after, 0, end);
                    assert(after@ =~= line@.skip(k + 1));
                    assert(field@ =~= second_field(line@)->0);
                    return Some(vstd::slice::slice_to_vec(trim(field)));
                }
            },
            None => {
                return None;
            },
        }
        rest = later;
    }
    None
}

/// Whether a line, what ends it and what comes after that make up a text: the line has no line
/// feed, and it ends with one, with one after a carriage return, or with the text.
pub open spec fn is_line(line: Seq<char>, end: Seq<char>, rest: Seq<char>) -> bool {
    &&& !line.contains('\n')
    &&& {
        ||| end == seq!['\n'] && (line.len() > 0 ==> line.last() != '\r')
        ||| end == seq!['\r', '\n']
        ||| end.len() == 0 && rest.len() == 0
    }
}

/// A line that does not begin with the label has no part in what a status report gives for it,
/// and a report without lines gives zero.
pub proof fn law_report_skips(
    line: Seq<char>,
    end: Seq<char>,
    rest: Seq<char>,
    label: Seq<char>,
)
    requires
        is_line(line, end, rest),
        !label.is_prefix_of(line),
    ensures
        reported(line + end + rest, label) == reported(rest, label),
        reported(Seq::empty(), label) == 0,
{
    law_lines(line, end, rest);
    if begins_with(line, label) {
        assert(line.take(label.len() as int) =~= line.subrange(0, label.len() as int));
    }
    if (line + end + rest).len() == 0 {
        assert(rest =~= line + end + rest);
    }
}

/// A status report gives for a label the number that stands after it in the first line that
/// begins with it, with or without white space between and whatever follows in the line. It
/// gives zero if the word there is no number that 64 bits hold, or if there is no word.
pub proof fn law_report_reads(
    label: Seq<char>,
    gap: Seq<char>,
    w: Seq<char>,
    unit: Seq<char>,
    end: Seq<char>,
    rest: Seq<char>,
)
    requires
        is_line(label + gap + w + unit, end, rest),
        forall|i: int| 0 <= i < gap.len() ==> is_space(#[trigger] gap[i]),
        forall|i: int| 0 <= i < w.len() ==> !is_space(#[trigger] w[i]),
        unit.len() > 0 ==> w.len() > 0 && is_space(unit[0]),
    ensures
        ({
            let value = w.fold_left(0int, |n: int, c: char| n * 10 + (c as int - '0' as int));
            let shown = reported(label + gap + w + unit + end + rest, label);
            &&& w.len() > 0 && (forall|i: int|
                0 <= i < w.len() ==> '0' <= (#[trigger] w[i]) <= '9') && value <= u64::MAX
                ==> shown == value
            &&& number_of(w, 0xffff_ffff_ffff_ffff) matches Some(n) ==> shown == n
            &&& number_of(w, 0xffff_ffff_ffff_ffff) is None ==> shown == 0
            &&& w.len() == 0 ==> shown == 0
        }),
{
    let line = label + gap + w + unit;
    let text = label + gap + w + unit + end + rest;
    if text.len() > 0 {
        law_lines(line, end, rest);
        assert(line.take(label.len() as int) =~= label);
        assert(line.skip(label.len() as int) =~= gap + w + unit);
        law_first_word(gap, w, unit);
        if w.len() == 0 {
            assert(gap + w + unit =~= gap);
        } else if forall|i: int| 0 <= i < w.len() ==> '0' <= (#[trigger] w[i]) <= '9' {
            law_number(w, u64::MAX as nat);
        }
    }
}

proof fn lemma_fields_of(first: Seq<char>, second: Seq<char>, more: Seq<char>)
    requires
        !first.contains(','),
        !second.contains(','),
        more.len() > 0 ==> more[0] == ',',
    ensures
        ({
            let line = first + seq![','] + second + more;
            &&& line.take(find_char(line, ',')) == first
            &&& second_field(line) == Some(second)
        }),
        first.take(find_char(first, ',')) == first,
        second_field(first) is None,
{
    let line = first + seq![','] + second + more;
    let n = first.len() as int;
    assert forall|i: int| 0 <= i < n implies line[i] != ',' && first[i] != ',' by {
        assert(first.contains(first[i]));
    }
    lemma_find_char(line, ',', n);
    lemma_find_char(first, ',', n);
    assert(line.take(n) =~= first);
    assert(first.take(n) =~= first);
    let rest = line.skip(n + 1);
    assert(rest =~= second + more);
    assert forall|i: int| 0 <= i < second.len() implies rest[i] != ',' by {
        assert(second.contains(second[i]));
    }
    lemma_find_char(rest, ',', second.len() as int);
    assert(rest.take(second.len() as int) =~= second);
}

/// A report of processes gives for a process what stands between the first two commas of its
/// line, or after the only one, without the white space around it. The line of another process
/// has no part in that. A line that does not begin with a process ends the report, and so does
/// the line of the process if it has no comma.
pub proof fn law_process_line(
    pid: u32,
    number: Seq<char>,
    left: Seq<char>,
    memory: Seq<char>,
    right: Seq<char>,
    more: Seq<char>,
    end: Seq<char>,
    rest: Seq<char>,
)
    requires
        is_line(number + seq![','] + (left + memory + right) + more, end, rest),
        !number.contains(','),
        !memory.contains(','),
        more.len() > 0 ==> more[0] == ',',
        forall|i: int| 0 <= i < left.len() ==> is_space(#[trigger] left[i]),
        forall|i: int| 0 <= i < right.len() ==> is_space(#[trigger] right[i]),
        memory.len() > 0 ==> !is_space(memory[0]) && !is_space(memory.last()),
    ensures
        ({
            let text = number + seq![','] + (left + memory + right) + more + end + rest;
            let read = number_of(trimmed(number), 0xffff_ffff);
            &&& read == Some(pid as nat) ==> process_memory(text, pid) == Some(memory)
            &&& read is Some && read != Some(pid as nat) ==> process_memory(text, pid)
                == process_memory(rest, pid)
            &&& read is None ==> process_memory(text, pid) is None
        }),
{
    let second = left + memory + right;
    let line = number + seq![','] + second + more;
    assert(!second.contains(',')) by {
        if second.contains(',') {
            let i = choose|i: int| 0 <= i < second.len() && second[i] == ',';
            if i < left.len() {
                assert(is_space(left[i]));
            } else if i < left.len() + memory.len() {
                assert(memory[i - left.len()] == ',');
            } else {
                assert(is_space(right[i - left.len() - memory.len()]));
            }
        }
    }
    law_lines(line, end, rest);
    lemma_fields_of(number, second, more);
    law_trimmed(left, memory, right);
}

/// A line of a report of processes without a comma gives nothing for its own process, has no
/// part in what the report gives for another, and ends the report if it is no process. A report
/// without lines gives nothing.
pub proof fn law_process_without_field(
    pid: u32,
    number: Seq<char>,
    end: Seq<char>,
    rest: Seq<char>,
)
    requires
        is_line(number, end, rest),
        !number.contains(','),
        (number + end).len() > 0,
    ensures
        ({
            let text = number + end + rest;
            let read = number_of(trimmed(number), 0xffff_ffff);
            &&& read is None || read == Some(pid as nat) ==> process_memory(text, pid) is None
            &&& read is Some && read != Some(pid as nat) ==> process_memory(text, pid)
                == process_memory(rest, pid)
        }),
        process_memory(Seq::empty(), pid) is None,
{
    law_lines(number, end, rest);
    lemma_fields_of(number, Seq::empty(), Seq::empty());
}

} // verus!
