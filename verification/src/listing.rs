//! Reading the listing of monitors that `mstsc /l` shows.
use vstd::prelude::*;
use vstd::slice::slice_subrange;

use crate::casing::{ascii_uppercased, is_ascii_text, uppercase, uppercased};
use crate::monitor::LiveMonitor;
use crate::number::{
    all_digits, decimal, decimal_reads_back, digit, digits_value, is_digit, read_digits,
    read_unsigned, signed_decimal, unsigned_reads_back, unsigned_value,
};
use crate::text::{
    chars_of, contains, first_of, has, has_char, index_of, is_white_space, join,
    join_separates_neighbours, join_undoes_split, lemma_filter_map_sum, lemma_first_of,
    lemma_first_of_is, lemma_join_front,
    lemma_lines_of_two, lemma_lines_within, lemma_trim_nothing, lemma_trim_push_white,
    lemma_trimmed_keeps, lemma_trimmed_within, lines, lines_end_at_feeds, lines_of,
    lines_undo_join, occurs_at, split, split_at_each, string_of, strip_return, trim, trim_end,
    trim_start, trimmed, trimmed_is_the_middle, trimming_takes_what_is_around, views,
    without_blank_end,
};

verus! {

/// How many digits `s` begins with.
pub open spec fn digit_run(s: Seq<char>) -> int
    decreases s.len(),
{
    if s.len() > 0 && is_digit(s[0]) {
        1 + digit_run(s.skip(1))
    } else {
        0
    }
}

/// The length of the number that `s` begins with: a run of digits, or a `-` and a run of digits.
/// It is 0 where `s` begins with neither.
pub open spec fn number_len(s: Seq<char>) -> int {
    if s.len() > 0 && s[0] == '-' {
        let run = digit_run(s.skip(1));
        if run > 0 {
            1 + run
        } else {
            0
        }
    } else {
        digit_run(s)
    }
}

/// The value of a run of digits that may follow a `-`, if it is an `i32`.
pub open spec fn number_value(s: Seq<char>) -> Option<i32> {
    let value = if s.len() > 0 && s[0] == '-' {
        -(digits_value(s.skip(1)) as int)
    } else {
        digits_value(s) as int
    };
    if i32::MIN <= value <= i32::MAX {
        Some(value as i32)
    } else {
        None
    }
}

/// The numbers in `s`, in their order; those that are no `i32` are left out.
pub open spec fn numbers(s: Seq<char>) -> Seq<i32>
    decreases s.len(),
{
    let n = number_len(s);
    if s.len() == 0 {
        seq![]
    } else if 0 < n <= s.len() {
        (match number_value(s.take(n)) {
            Some(value) => seq![value],
            None => seq![],
        }) + numbers(s.skip(n))
    } else {
        numbers(s.skip(1))
    }
}

proof fn lemma_digit_run(s: Seq<char>, n: int)
    requires
        0 <= n <= s.len(),
        forall|k: int| 0 <= k < n ==> is_digit(#[trigger] s[k]),
        n < s.len() ==> !is_digit(s[n]),
    ensures
        digit_run(s) == n,
    decreases n,
{
    if n > 0 {
        let rest = s.skip(1);
        assert forall|k: int| 0 <= k < n - 1 implies is_digit(#[trigger] rest[k]) by {
            assert(rest[k] == s[k + 1]);
        }
        if n < s.len() {
            assert(rest[n - 1] == s[n]);
        }
        lemma_digit_run(rest, n - 1);
        assert(is_digit(s[0]));
    }
}

/// The length of the run of digits that `s` begins with.
fn leading_digits(s: &[char]) -> (r: usize)
    ensures
        r == digit_run(s@),
        r <= s@.len(),
        forall|k: int| 0 <= k < r ==> is_digit(#[trigger] s@[k]),
{
    let n: usize = s.len();
    let mut i: usize = 0;
    while i < n && digit(s[i])
        invariant
            n == s@.len(),
            i <= n,
            forall|k: int| 0 <= k < i ==> is_digit(#[trigger] s@[k]),
        decreases n - i,
    {
        i = i + 1;
    }
    proof {
        lemma_digit_run(s@, i as int);
    }
    i
}

/// The numbers in a text, in their order.
pub fn extract_numbers(s: &str) -> (r: Vec<i32>)
    ensures
        r@ == numbers(s@),
{
    numbers_in(chars_of(s).as_slice())
}

/// The numbers in a stretch of characters, in their order.
fn numbers_in(s: &[char]) -> (r: Vec<i32>)
    ensures
        r@ == numbers(s@),
{
    let mut r: Vec<i32> = Vec::new();
    let n: usize = s.len();
    let mut i: usize = 0;
    assert(s@.skip(0) == s@);
    while i < n
        invariant
            n == s@.len(),
            i <= n,
            numbers(s@) == r@ + numbers(s@.skip(i as int)),
        decreases n - i,
    {
        let rest = slice_subrange(s, i, n);
        assert(rest@ == s@.skip(i as int));
        let negative = rest[0] == '-';
        let sign: usize = if negative {
            1
        } else {
            0
        };
        let unsigned = slice_subrange(rest, sign, rest.len());
        assert(unsigned@ == rest@.skip(sign as int));
        assert(rest@.skip(0) == rest@);
        let run: usize = leading_digits(unsigned);
        if run == 0 {
            assert(rest@.skip(1) == s@.skip(i + 1));
            i = i + 1;
        } else {
            let digits = slice_subrange(unsigned, 0, run);
            let ghost token = rest@.take(sign + run);
            assert(digits@ =~= token.skip(sign as int));
            assert(all_digits(digits@)) by {
                assert forall|k: int| 0 <= k < digits@.len() implies is_digit(
                    #[trigger] digits@[k],
                ) by {
                    assert(digits@[k] == unsigned@[k]);
                }
            }
            assert(token[0] == rest@[0]);
            let max: u32 = if negative {
                2147483648
            } else {
                2147483647
            };
            let ghost before = r@;
            if let Some(value) = read_digits(digits, max) {
                let number: i32 = if negative {
                    (-(value as i64)) as i32
                } else {
                    value as i32
                };
                r.push(number);
                assert(number_value(token) == Some(number));
                assert(r@ + numbers(rest@.skip(sign + run)) =~= before + (seq![number] + numbers(
                    rest@.skip(sign + run),
                )));
            } else {
                assert(number_value(token) is None);
                assert(r@ + numbers(rest@.skip(sign + run)) =~= before + (Seq::<i32>::empty()
                    + numbers(rest@.skip(sign + run))));
            }
            assert(rest@.skip(sign + run) == s@.skip(i + sign + run));
            i = i + sign + run;
        }
    }
    assert(r@ + numbers(s@.skip(i as int)) =~= r@);
    r
}

/// The extent from one coordinate to another, modulo 2^32.
pub open spec fn span(from: i32, to: int) -> u32 {
    ((to - from) % 0x1_0000_0000) as u32
}

/// The extent from one coordinate to another, modulo 2^32.
pub(crate) fn extent(from: i32, to: i64) -> (r: u32)
    requires
        i32::MIN <= to <= i32::MAX + 1,
    ensures
        r == span(from, to as int),
{
    let d: i64 = to - from as i64;
    if 0 <= d && d < 0x1_0000_0000 {
        d as u32
    } else if d < 0 {
        (d + 0x1_0000_0000) as u32
    } else {
        (d - 0x1_0000_0000) as u32
    }
}

/// The monitor with a number and its left, top, right and bottom coordinates, if all are there.
/// `past` is the distance from the last pixel that a coordinate names to the end of the monitor.
pub open spec fn numbered_monitor(
    id: Option<nat>,
    coords: Seq<i32>,
    past: int,
    is_primary: bool,
) -> Option<LiveMonitor> {
    if id is None || coords.len() < 4 {
        None
    } else {
        Some(
            LiveMonitor {
                mstsc_id: id->0 as u32,
                left: coords[0],
                top: coords[1],
                width: span(coords[0], coords[2] + past),
                height: span(coords[1], coords[3] + past),
                is_primary,
            },
        )
    }
}

/// One or more digits.
pub open spec fn is_digits(s: Seq<char>) -> bool {
    s.len() > 0 && all_digits(s)
}

/// The text, but for white space at either end, is a resolution `width x height`: digits, an `x`
/// and digits, with or without white space around the `x`.
pub open spec fn is_size(s: Seq<char>) -> bool {
    let t = trimmed(s);
    let x = first_of(t, 'x');
    &&& x < t.len()
    &&& is_digits(trimmed(t.take(x)))
    &&& is_digits(trimmed(t.skip(x + 1)))
}

/// The monitor that one trimmed line of the `mstsc /l` listing describes, if it describes one.
/// There are two forms. In `id; (left, top, right, bottom); ...` the right and bottom coordinates
/// lie just outside the monitor; in `id: width x height; (left, top, right, bottom)` they are the
/// last ones inside. `upper` is the line in upper case; the monitor is primary where that holds
/// the word `PRIMARY`.
pub open spec fn listed_monitor(line: Seq<char>, upper: Seq<char>) -> Option<LiveMonitor> {
    let parts = split(line, ';');
    let is_primary = contains(upper, "PRIMARY"@);
    let max = u32::MAX as nat;
    if parts.len() >= 3 {
        let id = unsigned_value(trimmed(parts[0]), max);
        numbered_monitor(id, numbers(parts[1]), 0, is_primary)
    } else if parts.len() == 2 && parts[0].contains(':') && is_size(
        parts[0].skip(first_of(parts[0], ':') + 1),
    ) {
        let id = unsigned_value(trimmed(parts[0].take(first_of(parts[0], ':'))), max);
        numbered_monitor(id, numbers(parts[1]), 1, is_primary)
    } else {
        None
    }
}

/// The monitor that one line of the `mstsc /l` listing describes, if it describes one.
pub open spec fn line_monitor(line: Seq<char>) -> Option<LiveMonitor> {
    listed_monitor(trimmed(line), uppercased(trimmed(line)))
}

/// The monitors that a `mstsc /l` listing describes, in the order of their lines.
pub open spec fn listed_monitors(text: Seq<char>) -> Seq<LiveMonitor> {
    lines(text).filter_map(|line: Seq<char>| line_monitor(line))
}

/// The monitor that one line of a listing in ASCII describes, if it describes one.
pub open spec fn ascii_line_monitor(line: Seq<char>) -> Option<LiveMonitor> {
    listed_monitor(trimmed(line), ascii_uppercased(trimmed(line)))
}

/// The monitors that a listing in ASCII describes, in the order of their lines.
pub open spec fn ascii_listed_monitors(text: Seq<char>) -> Seq<LiveMonitor> {
    lines(text).filter_map(|line: Seq<char>| ascii_line_monitor(line))
}

proof fn lemma_ascii_lines(text: Seq<char>)
    requires
        is_ascii_text(text),
    ensures
        forall|i: int| 0 <= i < lines(text).len() ==> is_ascii_text(trimmed(#[trigger] lines(text)[i])),
{
    lemma_lines_within(text);
    assert forall|i: int| 0 <= i < lines(text).len() implies is_ascii_text(
        trimmed(#[trigger] lines(text)[i]),
    ) by {
        let line = lines(text)[i];
        lemma_trimmed_within(line);
        assert forall|k: int| 0 <= k < trimmed(line).len() implies (#[trigger] trimmed(
            line,
        )[k] as u32) < 0x80 by {
            let j = choose|j: int| 0 <= j < line.len() && line[j] == trimmed(line)[k];
            assert(text.contains(lines(text)[i][j]));
        }
    }
}

fn only_digits(s: &[char]) -> (r: bool)
    ensures
        r == is_digits(s@),
{
    let run: usize = leading_digits(s);
    proof {
        if all_digits(s@) {
            lemma_digit_run(s@, s@.len() as int);
        }
    }
    run > 0 && run == s.len()
}

/// Tells whether a text is a resolution `width x height`.
fn size(s: &[char]) -> (r: bool)
    ensures
        r == is_size(s@),
{
    let t = trim(s);
    let x: usize = index_of(t, 'x');
    if x == t.len() {
        return false;
    }
    let width = slice_subrange(t, 0, x);
    assert(width@ == t@.take(x as int));
    let height = slice_subrange(t, x + 1, t.len());
    assert(height@ == t@.skip(x + 1));
    only_digits(trim(width)) && only_digits(trim(height))
}

/// Reads one trimmed line of the `mstsc /l` listing, given the line in upper case.
pub fn parse_line(line: &str, upper: &str) -> (r: Option<LiveMonitor>)
    ensures
        r == listed_monitor(line@, upper@),
{
    let chars = chars_of(line);
    let parts = split_at_each(chars.as_slice(), ';');
    assert(views(parts@).len() == parts@.len());
    let n: usize = parts.len();
    if n < 2 {
        return None;
    }
    assert(views(parts@)[0] == parts@[0]@);
    assert(views(parts@)[1] == parts@[1]@);
    let mut number = parts[0];
    let mut past: i64 = 0;
    if n == 2 {
        if !has_char(parts[0], ':') {
            return None;
        }
        let i: usize = index_of(parts[0], ':');
        proof {
            lemma_first_of(parts@[0]@, ':');
            let k = choose|k: int| 0 <= k < parts@[0]@.len() && parts@[0]@[k] == ':';
            assert(parts@[0]@[k] == ':');
        }
        let rest = slice_subrange(parts[0], i + 1, parts[0].len());
        assert(rest@ == parts@[0]@.skip(i + 1));
        if !size(rest) {
            return None;
        }
        number = slice_subrange(parts[0], 0, i);
        assert(number@ == parts@[0]@.take(i as int));
        past = 1;
    }
    let id: u32 = match read_unsigned(trim(number), u32::MAX) {
        Some(id) => id,
        None => {
            return None;
        },
    };
    let coords = numbers_in(parts[1]);
    if coords.len() < 4 {
        return None;
    }
    let is_primary = has(chars_of(upper).as_slice(), chars_of("PRIMARY").as_slice());
    Some(
        LiveMonitor {
            mstsc_id: id,
            left: coords[0],
            top: coords[1],
            width: extent(coords[0], coords[2] as i64 + past),
            height: extent(coords[1], coords[3] as i64 + past),
            is_primary,
        },
    )
}

/// Reads every line of a `mstsc /l` listing that describes a monitor.
pub fn regex_lite_parse(text: &str) -> (r: Vec<LiveMonitor>)
    ensures
        r@ == listed_monitors(text@),
        is_ascii_text(text@) ==> r@ == ascii_listed_monitors(text@),
{
    let mut monitors: Vec<LiveMonitor> = Vec::new();
    let chars = chars_of(text);
    let all = lines_of(chars.as_slice());
    let ghost spec_lines = lines(text@);
    let ghost read = |line: Seq<char>| line_monitor(line);
    let ghost read_ascii = |line: Seq<char>| ascii_line_monitor(line);
    let n: usize = all.len();
    let mut i: usize = 0;
    assert(views(all@).len() == n);
    assert(spec_lines.take(0) =~= seq![]);
    proof {
        if is_ascii_text(text@) {
            lemma_ascii_lines(text@);
        }
    }
    while i < n
        invariant
            n == all@.len(),
            i <= n,
            views(all@) == spec_lines,
            read == (|line: Seq<char>| line_monitor(line)),
            read_ascii == (|line: Seq<char>| ascii_line_monitor(line)),
            is_ascii_text(text@) ==> forall|k: int|
                0 <= k < n ==> is_ascii_text(trimmed(#[trigger] spec_lines[k])),
            monitors@ == spec_lines.take(i as int).filter_map(read),
            is_ascii_text(text@) ==> monitors@ == spec_lines.take(i as int).filter_map(read_ascii),
        decreases n - i,
    {
        let line = string_of(trim(all[i]));
        let upper = uppercase(line.as_str());
        assert(views(all@)[i as int] == all@[i as int]@);
        proof {
            spec_lines.lemma_filter_map_take_succ(read, i as int);
            spec_lines.lemma_filter_map_take_succ(read_ascii, i as int);
        }
        if let Some(monitor) = parse_line(line.as_str(), upper.as_str()) {
            monitors.push(monitor);
        }
        i = i + 1;
        assert(monitors@ =~= spec_lines.take(i as int).filter_map(read));
        assert(is_ascii_text(text@) ==> monitors@ =~= spec_lines.take(i as int).filter_map(
            read_ascii,
        ));
    }
    assert(spec_lines.take(n as int) =~= spec_lines);
    monitors
}

/// Reads a `mstsc /l` listing; one that describes no monitor is an error.
pub fn parse_mstsc_output(text: &str) -> (r: Result<Vec<LiveMonitor>, String>)
    ensures
        match r {
            Ok(monitors) => monitors@ == listed_monitors(text@) && listed_monitors(text@).len() > 0,
            Err(e) => listed_monitors(text@).len() == 0 && e@
                == "No monitor lines found in mstsc output"@,
        },
        is_ascii_text(text@) ==> match r {
            Ok(monitors) => monitors@ == ascii_listed_monitors(text@),
            Err(_) => ascii_listed_monitors(text@).len() == 0,
        },
{
    let monitors = regex_lite_parse(text);
    if monitors.len() == 0 {
        Err("No monitor lines found in mstsc output".to_string())
    } else {
        Ok(monitors)
    }
}

/// How a listing writes the edges of a monitor.
pub open spec fn edges_text(left: int, top: int, right: int, bottom: int) -> Seq<char> {
    "("@ + (signed_decimal(left) + (", "@ + (signed_decimal(top) + (", "@ + (signed_decimal(right) + (
    ", "@ + (signed_decimal(bottom) + ")"@)))))))
}

/// A character that is part of no number is passed over.
proof fn lemma_numbers_skip(c: char, rest: Seq<char>)
    requires
        !is_digit(c),
        c != '-',
    ensures
        numbers(seq![c] + rest) == numbers(rest),
{
    let s = seq![c] + rest;
    assert(s[0] == c);
    assert(s.skip(1) =~= rest);
}

/// A number that no further digit follows is read as it was written.
proof fn lemma_numbers_number(n: i32, rest: Seq<char>)
    requires
        rest.len() == 0 || !is_digit(rest[0]),
    ensures
        numbers(signed_decimal(n as int) + rest) == seq![n] + numbers(rest),
{
    let size = if n < 0 {
        -(n as int)
    } else {
        n as int
    };
    let digits = decimal(size as nat);
    decimal_reads_back(size as nat);
    let tail = digits + rest;
    assert forall|k: int| 0 <= k < digits.len() implies is_digit(#[trigger] tail[k]) by {
        assert(tail[k] == digits[k]);
    }
    if digits.len() < tail.len() {
        assert(tail[digits.len() as int] == rest[0]);
    }
    lemma_digit_run(tail, digits.len() as int);
    let s = signed_decimal(n as int) + rest;
    if n < 0 {
        assert(s[0] == '-');
        assert(s.skip(1) =~= tail);
        assert(signed_decimal(n as int).skip(1) =~= digits);
    } else {
        assert(s =~= tail);
        assert(is_digit(tail[0]));
        assert(digits[0] == tail[0]);
    }
    let len = signed_decimal(n as int).len() as int;
    assert(number_len(s) == len);
    assert(s.take(len) =~= signed_decimal(n as int));
    assert(s.skip(len) =~= rest);
    assert(number_value(s.take(len)) == Some(n));
}

/// A number that a comma follows is read as it was written.
proof fn lemma_numbers_comma(n: i32, rest: Seq<char>)
    ensures
        numbers(signed_decimal(n as int) + (", "@ + rest)) == seq![n] + numbers(rest),
{
    reveal_strlit(", ");
    let after = seq![' '] + rest;
    assert(", "@ + rest =~= seq![','] + after);
    lemma_numbers_number(n, ", "@ + rest);
    lemma_numbers_skip(',', after);
    lemma_numbers_skip(' ', rest);
}

/// The edges of a monitor are read as they were written.
proof fn lemma_edges_read_back(left: i32, top: i32, right: i32, bottom: i32)
    ensures
        numbers(seq![' '] + edges_text(left as int, top as int, right as int, bottom as int))
            == seq![left, top, right, bottom],
{
    reveal_strlit("(");
    reveal_strlit(")");
    let last = signed_decimal(bottom as int) + ")"@;
    let third = signed_decimal(right as int) + (", "@ + last);
    let second = signed_decimal(top as int) + (", "@ + third);
    let first = signed_decimal(left as int) + (", "@ + second);
    let edges = edges_text(left as int, top as int, right as int, bottom as int);
    assert(edges == "("@ + first);
    assert("("@ =~= seq!['(']);
    assert(")"@ =~= seq![')'] + Seq::<char>::empty());
    lemma_numbers_skip(' ', edges);
    lemma_numbers_skip('(', first);
    lemma_numbers_comma(left, second);
    lemma_numbers_comma(top, third);
    lemma_numbers_comma(right, last);
    lemma_numbers_number(bottom, ")"@);
    lemma_numbers_skip(')', Seq::<char>::empty());
    assert(numbers(Seq::<char>::empty()) == Seq::<i32>::empty());
    assert(numbers(last) =~= seq![bottom]);
    assert(numbers(third) =~= seq![right, bottom]);
    assert(numbers(second) =~= seq![top, right, bottom]);
}

/// The character may stand in a line that a listing writes for a monitor.
spec fn is_plain(c: char) -> bool {
    is_digit(c) || c == '-' || c == '(' || c == ')' || c == ',' || c == ' ' || c == ':' || c == 'x'
        || c == ';'
}

spec fn all_plain(s: Seq<char>) -> bool {
    forall|i: int| 0 <= i < s.len() ==> is_plain(#[trigger] s[i])
}

proof fn lemma_signed_plain(n: int)
    ensures
        all_plain(signed_decimal(n)),
        !signed_decimal(n).contains(';'),
{
    decimal_reads_back(
        if n < 0 {
            (-n) as nat
        } else {
            n as nat
        },
    );
    let s = signed_decimal(n);
    assert forall|i: int| 0 <= i < s.len() implies is_digit(#[trigger] s[i]) || s[i] == '-' by {
        if n < 0 {
            if i > 0 {
                assert(s[i] == decimal((-n) as nat)[i - 1]);
            }
        }
    }
}

proof fn lemma_edges_plain(left: int, top: int, right: int, bottom: int)
    ensures
        all_plain(edges_text(left, top, right, bottom)),
        !edges_text(left, top, right, bottom).contains(';'),
        edges_text(left, top, right, bottom).len() > 0,
        edges_text(left, top, right, bottom).last() == ')',
{
    reveal_strlit("(");
    reveal_strlit(", ");
    reveal_strlit(")");
    lemma_signed_plain(left);
    lemma_signed_plain(top);
    lemma_signed_plain(right);
    lemma_signed_plain(bottom);
    let last = signed_decimal(bottom) + ")"@;
    lemma_plain_sum(signed_decimal(bottom), ")"@);
    lemma_plain_sum(", "@, last);
    lemma_plain_sum(signed_decimal(right), ", "@ + last);
    let third = signed_decimal(right) + (", "@ + last);
    lemma_plain_sum(", "@, third);
    lemma_plain_sum(signed_decimal(top), ", "@ + third);
    let second = signed_decimal(top) + (", "@ + third);
    lemma_plain_sum(", "@, second);
    lemma_plain_sum(signed_decimal(left), ", "@ + second);
    lemma_plain_sum("("@, signed_decimal(left) + (", "@ + second));
}

proof fn lemma_plain_sum(a: Seq<char>, b: Seq<char>)
    ensures
        all_plain(a) && all_plain(b) ==> all_plain(a + b),
        !a.contains(';') && !b.contains(';') ==> !(a + b).contains(';'),
{
    let s = a + b;
    assert forall|i: int| 0 <= i < s.len() implies #[trigger] s[i] == if i < a.len() {
        a[i]
    } else {
        b[i - a.len()]
    } by {}
    if all_plain(a) && all_plain(b) {
        assert forall|i: int| 0 <= i < s.len() implies is_plain(#[trigger] s[i]) by {
            if i < a.len() {
                assert(is_plain(a[i]));
            } else {
                assert(is_plain(b[i - a.len()]));
            }
        }
    }
    if !a.contains(';') && !b.contains(';') && s.contains(';') {
        let i = choose|i: int| 0 <= i < s.len() && s[i] == ';';
        if i < a.len() {
            assert(a[i] == ';');
        } else {
            assert(b[i - a.len()] == ';');
        }
    }
}

proof fn lemma_split_front(front: Seq<char>, c: char, rest: Seq<char>)
    requires
        !front.contains(c),
    ensures
        split(front + seq![c] + rest, c) == seq![front] + split(rest, c),
        split(front, c) == seq![front],
{
    let s = front + seq![c] + rest;
    let n = front.len() as int;
    assert(s[n] == c);
    assert forall|k: int| 0 <= k < n implies s[k] != c by {
        assert(s[k] == front[k]);
    }
    lemma_first_of_is(s, c, n);
    assert(s.take(n) =~= front);
    assert(s.skip(n + 1) =~= rest);
    lemma_first_of_is(front, c, n);
}

proof fn lemma_id_reads_back(id: u32)
    ensures
        unsigned_value(trimmed(decimal(id as nat)), u32::MAX as nat) == Some(id as nat),
        decimal(id as nat).len() > 0,
        is_digit(decimal(id as nat)[0]),
        all_plain(decimal(id as nat)),
        !decimal(id as nat).contains(';'),
        !decimal(id as nat).contains(':'),
{
    let s = decimal(id as nat);
    decimal_reads_back(id as nat);
    unsigned_reads_back(id as nat, u32::MAX as nat);
    assert(is_digit(s[0]) && is_digit(s[s.len() - 1]));
    lemma_trim_nothing(s);
    assert forall|i: int| 0 <= i < s.len() implies s[i] != ';' && s[i] != ':' && is_plain(
        #[trigger] s[i],
    ) by {
        assert(is_digit(s[i]));
    }
}

/// Numbers written one after another with commas between them are read as they were written.
pub proof fn numbers_read_back(all: Seq<i32>)
    ensures
        numbers(join(all.map_values(|n: i32| signed_decimal(n as int)), ", "@)) == all,
    decreases all.len(),
{
    let parts = all.map_values(|n: i32| signed_decimal(n as int));
    if all.len() == 0 {
        assert(numbers(join(parts, ", "@)) =~= all);
    } else if all.len() == 1 {
        lemma_numbers_number(all[0], seq![]);
        assert(signed_decimal(all[0] as int) + Seq::<char>::empty() =~= join(parts, ", "@));
        assert(numbers(Seq::<char>::empty()) == Seq::<i32>::empty());
        assert(numbers(join(parts, ", "@)) =~= all);
    } else {
        let rest = all.skip(1);
        let others = rest.map_values(|n: i32| signed_decimal(n as int));
        numbers_read_back(rest);
        lemma_join_front(parts, ", "@);
        assert(parts.skip(1) =~= others);
        lemma_numbers_comma(all[0], join(others, ", "@));
        assert(join(parts, ", "@) =~= signed_decimal(all[0] as int) + (", "@ + join(others, ", "@)));
        assert(numbers(join(parts, ", "@)) =~= all);
    }
}

/// Two texts with a line feed between them are read one after the other, by anything that reads
/// lines and passes over empty ones and a carriage return at their end.
proof fn lemma_lines_judged_alone(
    a: Seq<char>,
    b: Seq<char>,
    read: spec_fn(Seq<char>) -> Option<LiveMonitor>,
)
    requires
        read(seq![]) is None,
        forall|line: Seq<char>| #[trigger] read(strip_return(line)) == read(line),
    ensures
        lines(a + seq!['\n'] + b).filter_map(read) == lines(a).filter_map(read) + lines(
            b,
        ).filter_map(read),
    decreases a.len(),
{
    let n = first_of(a, '\n');
    let s = a + seq!['\n'] + b;
    lemma_first_of(a, '\n');
    lemma_lines_of_two(a, b);
    if n < a.len() {
        let first = seq![strip_return(a.take(n))];
        let rest = a.skip(n + 1);
        lemma_lines_judged_alone(rest, b, read);
        lemma_filter_map_sum(first, lines(rest + seq!['\n'] + b), read);
        lemma_filter_map_sum(first, lines(rest), read);
        assert(lines(s).filter_map(read) =~= lines(a).filter_map(read) + lines(b).filter_map(read));
    } else {
        let line = strip_return(a);
        lemma_filter_map_sum(seq![line], lines(b), read);
        Seq::lemma_filter_map_singleton(line, read);
        assert(read(line) == read(a));
        if a.len() == 0 {
            assert(a =~= seq![]);
            assert(lines(a) =~= seq![]);
            assert(lines(a).filter_map(read) =~= seq![]);
        } else {
            assert(lines(a) =~= seq![a]);
            Seq::lemma_filter_map_singleton(a, read);
        }
        assert(lines(s).filter_map(read) =~= lines(a).filter_map(read) + lines(b).filter_map(read));
    }
}

/// Every line of a listing is read by itself: a listing of two parts gives the monitors of the
/// first part and then those of the second.
pub proof fn lines_are_read_one_by_one(a: Seq<char>, b: Seq<char>)
    ensures
        listed_monitors(a + "\n"@ + b) == listed_monitors(a) + listed_monitors(b),
        ascii_listed_monitors(a + "\n"@ + b) == ascii_listed_monitors(a) + ascii_listed_monitors(b),
{
    reveal_strlit("\n");
    assert("\n"@ =~= seq!['\n']);
    assert forall|line: Seq<char>| trimmed(#[trigger] strip_return(line)) == trimmed(line) by {
        if line.len() > 0 && line.last() == '\r' {
            lemma_trim_push_white(line.drop_last(), '\r');
            assert(line.drop_last().push('\r') =~= line);
        }
    }
    let nothing = Seq::<char>::empty();
    assert(trimmed(nothing) == nothing);
    assert(split(nothing, ';').len() == 1);
    lemma_lines_judged_alone(a, b, |line: Seq<char>| line_monitor(line));
    lemma_lines_judged_alone(a, b, |line: Seq<char>| ascii_line_monitor(line));
}

/// A line of the form `id; (left, top, right, bottom);`, whatever follows, is read as the monitor
/// that it describes.
pub proof fn line_with_edges_first_reads_back(
    id: u32,
    left: i32,
    top: i32,
    right: i32,
    bottom: i32,
    rest: Seq<char>,
    upper: Seq<char>,
)
    ensures
        listed_monitor(
            decimal(id as nat) + ";"@ + (" "@ + edges_text(
                left as int,
                top as int,
                right as int,
                bottom as int,
            )) + ";"@ + rest,
            upper,
        ) == Some(
            LiveMonitor {
                mstsc_id: id,
                left,
                top,
                width: span(left, right as int),
                height: span(top, bottom as int),
                is_primary: contains(upper, "PRIMARY"@),
            },
        ),
{
    reveal_strlit(";");
    reveal_strlit(" ");
    let number = decimal(id as nat);
    let edges = " "@ + edges_text(left as int, top as int, right as int, bottom as int);
    assert(edges =~= seq![' '] + edges_text(left as int, top as int, right as int, bottom as int));
    let line = number + ";"@ + edges + ";"@ + rest;
    let tail = edges + seq![';'] + rest;
    lemma_id_reads_back(id);
    lemma_edges_plain(left as int, top as int, right as int, bottom as int);
    lemma_plain_sum(" "@, edges_text(left as int, top as int, right as int, bottom as int));
    assert(line =~= number + seq![';'] + tail);
    lemma_split_front(number, ';', tail);
    lemma_split_front(edges, ';', rest);
    let parts = split(line, ';');
    let more = split(rest, ';');
    assert(more.len() >= 1);
    assert(parts =~= seq![number, edges] + more);
    assert(parts[0] == number && parts[1] == edges);
    lemma_edges_read_back(left, top, right, bottom);
}

/// A line of the form `id: width x height; (left, top, right, bottom)` is read as the monitor that
/// it describes, its right and bottom edges included.
pub proof fn line_with_size_first_reads_back(
    id: u32,
    size: Seq<char>,
    left: i32,
    top: i32,
    right: i32,
    bottom: i32,
    upper: Seq<char>,
)
    requires
        is_size(size),
    ensures
        listed_monitor(
            decimal(id as nat) + ":"@ + size + ";"@ + (" "@ + edges_text(
                left as int,
                top as int,
                right as int,
                bottom as int,
            )),
            upper,
        ) == Some(
            LiveMonitor {
                mstsc_id: id,
                left,
                top,
                width: span(left, right + 1),
                height: span(top, bottom + 1),
                is_primary: contains(upper, "PRIMARY"@),
            },
        ),
{
    reveal_strlit(";");
    reveal_strlit(":");
    reveal_strlit(" ");
    let number = decimal(id as nat);
    let edges = " "@ + edges_text(left as int, top as int, right as int, bottom as int);
    assert(edges =~= seq![' '] + edges_text(left as int, top as int, right as int, bottom as int));
    let front = number + ":"@ + size;
    let line = front + ";"@ + edges;
    lemma_id_reads_back(id);
    lemma_edges_plain(left as int, top as int, right as int, bottom as int);
    lemma_plain_sum(" "@, edges_text(left as int, top as int, right as int, bottom as int));
    lemma_plain_sum(number, ":"@);
    lemma_size_plain(size);
    lemma_plain_sum(number + ":"@, size);
    assert(line =~= front + seq![';'] + edges);
    lemma_split_front(front, ';', edges);
    lemma_split_front(edges, ';', seq![]);
    let parts = split(line, ';');
    assert(parts =~= seq![front, edges]);
    let n = number.len() as int;
    assert(front[n] == ':');
    assert(front.contains(':'));
    assert forall|k: int| 0 <= k < n implies front[k] != ':' by {
        assert(front[k] == number[k]);
    }
    lemma_first_of_is(front, ':', n);
    assert(front.take(n) =~= number);
    assert(front.skip(n + 1) =~= size);
    lemma_edges_read_back(left, top, right, bottom);
}

/// A line without a resolution behind its colon, or without a colon, that has only one semicolon
/// describes no monitor.
pub proof fn line_without_size_is_passed_over(
    front: Seq<char>,
    rest: Seq<char>,
    upper: Seq<char>,
)
    requires
        !front.contains(';'),
        !rest.contains(';'),
        front.contains(':') ==> !is_size(front.skip(first_of(front, ':') + 1)),
    ensures
        listed_monitor(front + ";"@ + rest, upper) is None,
{
    reveal_strlit(";");
    assert(front + ";"@ + rest =~= front + seq![';'] + rest);
    lemma_split_front(front, ';', rest);
    lemma_split_front(rest, ';', seq![]);
    assert(split(front + ";"@ + rest, ';') =~= seq![front, rest]);
}

/// The line that a listing writes for a monitor: `id: width x height; (left, top, right, bottom)`
/// with the last coordinates inside the monitor.
pub open spec fn listing_line(m: LiveMonitor) -> Seq<char> {
    decimal(m.mstsc_id as nat) + ":"@ + (" "@ + decimal(m.width as nat) + " x "@ + decimal(
        m.height as nat,
    )) + ";"@ + (" "@ + edges_text(
        m.left as int,
        m.top as int,
        m.left + m.width - 1,
        m.top + m.height - 1,
    ))
}

/// A listing of some monitors.
pub open spec fn listing(monitors: Seq<LiveMonitor>) -> Seq<char> {
    join(monitors.map_values(|m: LiveMonitor| listing_line(m)), "\r\n"@)
}

/// All edges of the monitor are coordinates, and it is not marked as primary, for which such a
/// listing has no sign.
pub open spec fn is_listable(m: LiveMonitor) -> bool {
    &&& i32::MIN <= m.left + m.width - 1 <= i32::MAX
    &&& i32::MIN <= m.top + m.height - 1 <= i32::MAX
    &&& !m.is_primary
}

/// What a listing writes for a resolution is one.
proof fn lemma_size_text(width: u32, height: u32)
    ensures
        is_size(" "@ + decimal(width as nat) + " x "@ + decimal(height as nat)),
{
    reveal_strlit(" ");
    reveal_strlit(" x ");
    let w = decimal(width as nat);
    let h = decimal(height as nat);
    decimal_reads_back(width as nat);
    decimal_reads_back(height as nat);
    let t = w + " x "@ + h;
    let s = " "@ + w + " x "@ + h;
    assert(is_digit(w[0]) && is_digit(w[w.len() - 1]));
    assert(is_digit(h[0]) && is_digit(h[h.len() - 1]));
    assert(s[0] == ' ');
    assert(s.skip(1) =~= t);
    assert(t[0] == w[0]);
    assert(t.last() == h[h.len() - 1]);
    assert(trim_start(t) == t);
    assert(trim_start(s) == t);
    assert(trimmed(s) == t);
    let x = w.len() as int + 1;
    assert(t[x] == 'x');
    assert forall|k: int| 0 <= k < x implies t[k] != 'x' by {
        if k < w.len() {
            assert(t[k] == w[k]);
            assert(is_digit(w[k]));
        }
    }
    lemma_first_of_is(t, 'x', x);
    let front = t.take(x);
    assert(front.drop_last() =~= w);
    assert(front.last() == ' ');
    assert(front[0] == w[0]);
    assert(trim_start(front) == front);
    assert(trim_end(w) == w);
    assert(trim_end(front) == w);
    let back = t.skip(x + 1);
    assert(back.skip(1) =~= h);
    assert(back[0] == ' ');
    assert(trim_start(h) == h);
    assert(trim_start(back) == h);
    assert(trim_end(h) == h);
}

/// A resolution holds no semicolon.
proof fn lemma_size_plain(s: Seq<char>)
    requires
        is_size(s),
    ensures
        !s.contains(';'),
{
    if s.contains(';') {
        let t = trimmed(s);
        lemma_trimmed_keeps(s, ';');
        let k = choose|k: int| 0 <= k < t.len() && t[k] == ';';
        let x = first_of(t, 'x');
        lemma_first_of(t, 'x');
        if k < x {
            assert(t.take(x)[k] == ';');
            lemma_trimmed_keeps(t.take(x), ';');
            let d = trimmed(t.take(x));
            let j = choose|j: int| 0 <= j < d.len() && d[j] == ';';
            assert(is_digit(d[j]));
        } else {
            assert(k > x);
            assert(t.skip(x + 1)[k - x - 1] == ';');
            lemma_trimmed_keeps(t.skip(x + 1), ';');
            let d = trimmed(t.skip(x + 1));
            let j = choose|j: int| 0 <= j < d.len() && d[j] == ';';
            assert(is_digit(d[j]));
        }
    }
}

/// Such a line holds no sign of a primary monitor.
proof fn lemma_plain_is_not_primary(line: Seq<char>)
    requires
        all_plain(line),
    ensures
        !contains(ascii_uppercased(line), "PRIMARY"@),
{
    reveal_strlit("PRIMARY");
    let upper = ascii_uppercased(line);
    if contains(upper, "PRIMARY"@) {
        let i = choose|i: int| occurs_at(upper, "PRIMARY"@, i);
        assert(upper.skip(i)[0] == "PRIMARY"@[0]);
        assert(is_plain(line[i]));
    }
}

proof fn lemma_listing_line_plain(m: LiveMonitor)
    ensures
        all_plain(listing_line(m)),
        listing_line(m).len() > 0,
        is_digit(listing_line(m)[0]),
        listing_line(m).last() == ')',
{
    reveal_strlit(";");
    reveal_strlit(":");
    reveal_strlit(" ");
    reveal_strlit(" x ");
    let right = m.left + m.width - 1;
    let bottom = m.top + m.height - 1;
    let number = decimal(m.mstsc_id as nat);
    let size = " "@ + decimal(m.width as nat) + " x "@ + decimal(m.height as nat);
    let edges = edges_text(m.left as int, m.top as int, right, bottom);
    lemma_id_reads_back(m.mstsc_id);
    lemma_id_reads_back(m.width);
    lemma_id_reads_back(m.height);
    lemma_plain_sum(" "@, decimal(m.width as nat));
    lemma_plain_sum(" "@ + decimal(m.width as nat), " x "@);
    lemma_plain_sum(" "@ + decimal(m.width as nat) + " x "@, decimal(m.height as nat));
    lemma_edges_plain(m.left as int, m.top as int, right, bottom);
    lemma_plain_sum(" "@, edges);
    lemma_plain_sum(number, ":"@);
    lemma_plain_sum(number + ":"@, size);
    lemma_plain_sum(number + ":"@ + size, ";"@);
    lemma_plain_sum(number + ":"@ + size + ";"@, " "@ + edges);
    assert(listing_line(m)[0] == number[0]);
    assert(listing_line(m).last() == edges.last());
}

#[verifier::spinoff_prover]
#[verifier::rlimit(40)]
proof fn lemma_listing_line(m: LiveMonitor)
    requires
        is_listable(m),
    ensures
        ascii_line_monitor(listing_line(m)) == Some(m),
{
    let right = (m.left + m.width - 1) as i32;
    let bottom = (m.top + m.height - 1) as i32;
    let size = " "@ + decimal(m.width as nat) + " x "@ + decimal(m.height as nat);
    let line = listing_line(m);
    let edges = edges_text(m.left as int, m.top as int, right as int, bottom as int);
    assert(line == decimal(m.mstsc_id as nat) + ":"@ + size + ";"@ + (" "@ + edges));
    lemma_listing_line_plain(m);
    lemma_plain_is_not_primary(line);
    lemma_size_text(m.width, m.height);
    line_with_size_first_reads_back(
        m.mstsc_id,
        size,
        m.left,
        m.top,
        right,
        bottom,
        ascii_uppercased(line),
    );
    lemma_trim_nothing(line);
    assert(span(m.left, right + 1) == m.width);
    assert(span(m.top, bottom + 1) == m.height);
}

/// Reading a listing of monitors gives the monitors, with their numbers, in their order.
pub proof fn listing_reads_back(monitors: Seq<LiveMonitor>)
    requires
        forall|i: int| 0 <= i < monitors.len() ==> is_listable(#[trigger] monitors[i]),
    ensures
        is_ascii_text(listing(monitors)),
        ascii_listed_monitors(listing(monitors)) == monitors,
{
    reveal_strlit("\r\n");
    assert("\r\n"@ =~= seq!['\r', '\n']);
    let all = monitors.map_values(|m: LiveMonitor| listing_line(m));
    assert forall|i: int| 0 <= i < all.len() implies !(#[trigger] all[i]).contains('\n')
        && all[i].len() > 0 && all_plain(all[i]) by {
        lemma_listing_line_plain(monitors[i]);
        if all[i].contains('\n') {
            let k = choose|k: int| 0 <= k < all[i].len() && all[i][k] == '\n';
            assert(is_plain(all[i][k]));
        }
    }
    lines_undo_join(all);
    assert(without_blank_end(all) == all);
    lemma_lines_of_monitors(monitors);
    lemma_join_ascii(all);
}

proof fn lemma_lines_of_monitors(monitors: Seq<LiveMonitor>)
    requires
        forall|i: int| 0 <= i < monitors.len() ==> is_listable(#[trigger] monitors[i]),
    ensures
        monitors.map_values(|m: LiveMonitor| listing_line(m)).filter_map(
            |line: Seq<char>| ascii_line_monitor(line),
        ) == monitors,
    decreases monitors.len(),
{
    let write = |m: LiveMonitor| listing_line(m);
    let read = |line: Seq<char>| ascii_line_monitor(line);
    let all = monitors.map_values(write);
    if monitors.len() > 0 {
        let front = monitors.drop_last();
        assert forall|i: int| 0 <= i < front.len() implies is_listable(#[trigger] front[i]) by {
            assert(front[i] == monitors[i]);
        }
        lemma_lines_of_monitors(front);
        assert(all.drop_last() =~= front.map_values(write));
        assert(is_listable(monitors[monitors.len() - 1]));
        lemma_listing_line(monitors.last());
        assert(all.last() == listing_line(monitors.last()));
        assert(all.filter_map(read) =~= front.push(monitors.last()));
    } else {
        assert(all.filter_map(read) =~= monitors);
    }
}

proof fn lemma_join_ascii(all: Seq<Seq<char>>)
    requires
        forall|i: int| 0 <= i < all.len() ==> all_plain(#[trigger] all[i]),
    ensures
        is_ascii_text(join(all, seq!['\r', '\n'])),
    decreases all.len(),
{
    let crlf = seq!['\r', '\n'];
    if all.len() > 0 {
        let last = all[all.len() - 1];
        assert(all_plain(last));
        let front = all.drop_last();
        assert forall|i: int| 0 <= i < front.len() implies all_plain(#[trigger] front[i]) by {
            assert(front[i] == all[i]);
        }
        lemma_join_ascii(front);
        let whole = join(all, crlf);
        let head = if all.len() == 1 {
            seq![]
        } else {
            join(front, crlf) + crlf
        };
        assert(whole =~= head + last);
        assert forall|k: int| 0 <= k < whole.len() implies (#[trigger] whole[k] as u32) < 0x80 by {
            if k < head.len() {
                assert(whole[k] == head[k]);
                if k < join(front, crlf).len() {
                    assert(head[k] == join(front, crlf)[k]);
                }
            } else {
                assert(whole[k] == last[k - head.len()]);
                assert(is_plain(last[k - head.len()]));
            }
        }
    }
}

/// A character that neither is a digit nor a `-` before one is passed over.
pub proof fn numbers_pass_over_other_characters(c: char, rest: Seq<char>)
    requires
        !('0' <= c <= '9'),
        c == '-' && rest.len() > 0 ==> !('0' <= rest[0] <= '9'),
    ensures
        numbers(seq![]) == Seq::<i32>::empty(),
        numbers(seq![c] + rest) == numbers(rest),
{
    let s = seq![c] + rest;
    assert(s[0] == c);
    assert(s.skip(1) =~= rest);
}

/// A whole run of digits is one number, and a `-` before it makes the number negative; a number
/// that is no `i32` is left out. Reading goes on behind the run.
pub proof fn numbers_take_whole_runs(digits: Seq<char>, rest: Seq<char>)
    requires
        digits.len() > 0,
        forall|k: int| 0 <= k < digits.len() ==> '0' <= #[trigger] digits[k] <= '9',
        rest.len() > 0 ==> !('0' <= rest[0] <= '9'),
    ensures
        numbers(digits + rest) == (if digits_value(digits) <= i32::MAX {
            seq![digits_value(digits) as i32]
        } else {
            seq![]
        }) + numbers(rest),
        numbers(seq!['-'] + digits + rest) == (if -(digits_value(digits) as int) >= i32::MIN {
            seq![(-(digits_value(digits) as int)) as i32]
        } else {
            seq![]
        }) + numbers(rest),
{
    let tail = digits + rest;
    let n = digits.len() as int;
    assert forall|k: int| 0 <= k < n implies is_digit(#[trigger] tail[k]) by {
        assert(tail[k] == digits[k]);
    }
    if n < tail.len() {
        assert(tail[n] == rest[0]);
    }
    lemma_digit_run(tail, n);
    assert(tail.take(n) =~= digits);
    assert(tail.skip(n) =~= rest);
    assert(is_digit(tail[0]) && is_digit(digits[0]) == is_digit(tail[0]));
    assert(digits[0] == tail[0]);
    let s = seq!['-'] + digits + rest;
    assert(s.skip(1) =~= tail);
    assert(s.take(n + 1) =~= seq!['-'] + digits);
    assert((seq!['-'] + digits).skip(1) =~= digits);
    assert(s.skip(n + 1) =~= rest);
}

/// An extent is the difference of its two coordinates, and congruent to it modulo 2^32 where that
/// is no `u32`.
pub proof fn span_is_the_difference(from: i32, to: int)
    ensures
        0 <= to - from < 0x1_0000_0000 ==> span(from, to) == to - from,
        (to - from - span(from, to)) % 0x1_0000_0000 == 0,
{
}

/// A resolution is written with digits, an `x` and digits, with nothing but white space around and
/// between them.
pub proof fn sizes_are_two_numbers(
    before: Seq<char>,
    width: Seq<char>,
    left: Seq<char>,
    right: Seq<char>,
    height: Seq<char>,
    after: Seq<char>,
)
    requires
        forall|k: int| 0 <= k < before.len() ==> is_white_space(#[trigger] before[k]),
        forall|k: int| 0 <= k < left.len() ==> is_white_space(#[trigger] left[k]),
        forall|k: int| 0 <= k < right.len() ==> is_white_space(#[trigger] right[k]),
        forall|k: int| 0 <= k < after.len() ==> is_white_space(#[trigger] after[k]),
        width.len() > 0,
        height.len() > 0,
        forall|k: int| 0 <= k < width.len() ==> '0' <= #[trigger] width[k] <= '9',
        forall|k: int| 0 <= k < height.len() ==> '0' <= #[trigger] height[k] <= '9',
    ensures
        is_size(before + (width + left + seq!['x'] + right + height) + after),
{
    let core = width + left + seq!['x'] + right + height;
    let nothing = Seq::<char>::empty();
    assert('0' <= width[0] <= '9' && '0' <= width[width.len() - 1] <= '9');
    assert('0' <= height[0] <= '9' && '0' <= height[height.len() - 1] <= '9');
    assert(core[0] == width[0]);
    assert(core.last() == height[height.len() - 1]);
    trimming_takes_what_is_around(before, core, after);
    let x = (width.len() + left.len()) as int;
    assert(core[x] == 'x');
    assert forall|k: int| 0 <= k < x implies core[k] != 'x' by {
        if k < width.len() {
            assert(core[k] == width[k]);
        } else {
            assert(core[k] == left[k - width.len()]);
            assert(is_white_space(left[k - width.len()]));
        }
    }
    lemma_first_of_is(core, 'x', x);
    assert(core.take(x) =~= nothing + width + left);
    assert(core.skip(x + 1) =~= right + height + nothing);
    trimming_takes_what_is_around(nothing, width, left);
    trimming_takes_what_is_around(right, height, nothing);
}

/// What is a resolution is one or more digits, an `x` and one or more digits, with white space or
/// nothing before, between and behind them.
pub proof fn sizes_are_nothing_else(s: Seq<char>)
    requires
        is_size(s),
    ensures
        exists|a: int, b: int, x: int, c: int, d: int|
            #![trigger s.subrange(a, b), s[x], s.subrange(c, d)]
            {
                &&& 0 <= a < b <= x < c < d <= s.len()
                &&& s[x] == 'x'
                &&& forall|k: int| a <= k < b || c <= k < d ==> '0' <= #[trigger] s[k] <= '9'
                &&& forall|k: int|
                    0 <= k < a || b <= k < x || x < k < c || d <= k < s.len() ==> is_white_space(
                        #[trigger] s[k],
                    )
            },
{
    let (from, to) = lemma_middle(s);
    let t = trimmed(s);
    let i = first_of(t, 'x');
    lemma_first_of(t, 'x');
    let left = t.take(i);
    let right = t.skip(i + 1);
    let (l0, l1) = lemma_middle(left);
    let (r0, r1) = lemma_middle(right);
    let x = from + i;
    let a = from + l0;
    let b = from + l1;
    let c = x + 1 + r0;
    let d = x + 1 + r1;
    assert(s[x] == t[i]);
    assert forall|k: int| a <= k < b || c <= k < d implies '0' <= #[trigger] s[k] <= '9' by {
        if k < b {
            assert(left[k - from] == s[k]);
            assert(trimmed(left)[k - a] == s[k]);
            assert(is_digit(trimmed(left)[k - a]));
        } else {
            assert(right[k - x - 1] == s[k]);
            assert(trimmed(right)[k - c] == s[k]);
            assert(is_digit(trimmed(right)[k - c]));
        }
    }
    assert forall|k: int|
        0 <= k < a || b <= k < x || x < k < c || d <= k < s.len() implies is_white_space(
        #[trigger] s[k],
    ) by {
        if from <= k < x {
            assert(left[k - from] == s[k]);
        } else if x < k < to {
            assert(right[k - x - 1] == s[k]);
        }
    }
    assert(s.subrange(a, b).len() > 0 && s.subrange(c, d).len() > 0);
}

/// Where trimming begins and ends.
proof fn lemma_middle(s: Seq<char>) -> (r: (int, int))
    ensures
        0 <= r.0 <= r.1 <= s.len(),
        trimmed(s) == s.subrange(r.0, r.1),
        forall|k: int| 0 <= k < r.0 || r.1 <= k < s.len() ==> is_white_space(#[trigger] s[k]),
{
    trimmed_is_the_middle(s);
    choose|a: int, b: int|
        #![trigger s.subrange(a, b)]
        {
            &&& 0 <= a <= b <= s.len()
            &&& trimmed(s) == s.subrange(a, b)
            &&& forall|k: int| 0 <= k < a || b <= k < s.len() ==> is_white_space(s[k])
            &&& a < b ==> !is_white_space(s[a]) && !is_white_space(s[b - 1])
        }
}

/// A text without a line feed is one line, and what is read of it is what that line describes.
proof fn lemma_one_line(line: Seq<char>)
    requires
        !line.contains('\n'),
    ensures
        listed_monitors(line) == (match line_monitor(line) {
            Some(m) => seq![m],
            None => Seq::<LiveMonitor>::empty(),
        }),
        ascii_listed_monitors(line) == (match ascii_line_monitor(line) {
            Some(m) => seq![m],
            None => Seq::<LiveMonitor>::empty(),
        }),
{
    lines_end_at_feeds(line, seq![]);
    let read = |line: Seq<char>| line_monitor(line);
    let read_ascii = |line: Seq<char>| ascii_line_monitor(line);
    if line.len() > 0 {
        Seq::lemma_filter_map_singleton(line, read);
        Seq::lemma_filter_map_singleton(line, read_ascii);
    } else {
        let nothing = Seq::<char>::empty();
        assert(line =~= nothing);
        assert(trimmed(nothing) == nothing);
        assert(split(nothing, ';').len() == 1);
        assert(lines(line).filter_map(read) =~= seq![]);
        assert(lines(line).filter_map(read_ascii) =~= seq![]);
    }
}

/// A line with two semicolons or more describes a monitor exactly where its first field is a
/// number and its second holds four numbers or more; these are the monitor's number and its edges,
/// of which the last two lie outside. It is primary where the line in capitals holds `PRIMARY`.
pub proof fn lines_of_three_fields(
    line: Seq<char>,
    first: Seq<char>,
    second: Seq<char>,
    rest: Seq<char>,
)
    requires
        !line.contains('\n'),
        trimmed(line) == first + seq![';'] + second + seq![';'] + rest,
        !first.contains(';'),
        !second.contains(';'),
    ensures
        ({
            let id = unsigned_value(trimmed(first), 0xffff_ffff);
            let n = numbers(second);
            let t = trimmed(line);
            if id is Some && n.len() >= 4 {
                &&& listed_monitors(line) == seq![
                    LiveMonitor {
                        mstsc_id: id->0 as u32,
                        left: n[0],
                        top: n[1],
                        width: span(n[0], n[2] as int),
                        height: span(n[1], n[3] as int),
                        is_primary: contains(uppercased(t), "PRIMARY"@),
                    },
                ]
                &&& ascii_listed_monitors(line) == seq![
                    LiveMonitor {
                        mstsc_id: id->0 as u32,
                        left: n[0],
                        top: n[1],
                        width: span(n[0], n[2] as int),
                        height: span(n[1], n[3] as int),
                        is_primary: contains(ascii_uppercased(t), "PRIMARY"@),
                    },
                ]
            } else {
                listed_monitors(line).len() == 0 && ascii_listed_monitors(line).len() == 0
            }
        }),
{
    lemma_one_line(line);
    let t = trimmed(line);
    let tail = second + seq![';'] + rest;
    assert(t =~= first + seq![';'] + tail);
    lemma_split_front(first, ';', tail);
    lemma_split_front(second, ';', rest);
    join_undoes_split(rest, ';');
    let parts = split(t, ';');
    assert(parts =~= seq![first, second] + split(rest, ';'));
    assert(parts[0] == first && parts[1] == second);
}

/// A line with one semicolon describes a monitor exactly where a number, a colon and a resolution
/// stand before it and four numbers or more behind it; these are the monitor's number and its
/// edges, of which the last two lie inside.
pub proof fn lines_of_two_fields(
    line: Seq<char>,
    number: Seq<char>,
    size: Seq<char>,
    second: Seq<char>,
)
    requires
        !line.contains('\n'),
        trimmed(line) == number + seq![':'] + size + seq![';'] + second,
        !number.contains(':'),
        !number.contains(';'),
        !size.contains(';'),
        !second.contains(';'),
    ensures
        ({
            let id = unsigned_value(trimmed(number), 0xffff_ffff);
            let n = numbers(second);
            let t = trimmed(line);
            if is_size(size) && id is Some && n.len() >= 4 {
                &&& listed_monitors(line) == seq![
                    LiveMonitor {
                        mstsc_id: id->0 as u32,
                        left: n[0],
                        top: n[1],
                        width: span(n[0], n[2] + 1),
                        height: span(n[1], n[3] + 1),
                        is_primary: contains(uppercased(t), "PRIMARY"@),
                    },
                ]
                &&& ascii_listed_monitors(line) == seq![
                    LiveMonitor {
                        mstsc_id: id->0 as u32,
                        left: n[0],
                        top: n[1],
                        width: span(n[0], n[2] + 1),
                        height: span(n[1], n[3] + 1),
                        is_primary: contains(ascii_uppercased(t), "PRIMARY"@),
                    },
                ]
            } else {
                listed_monitors(line).len() == 0 && ascii_listed_monitors(line).len() == 0
            }
        }),
{
    lemma_one_line(line);
    let t = trimmed(line);
    let front = number + seq![':'] + size;
    lemma_plain_sum(number, seq![':']);
    lemma_plain_sum(number + seq![':'], size);
    assert(!front.contains(';'));
    assert(t =~= front + seq![';'] + second);
    lemma_split_front(front, ';', second);
    lemma_split_front(second, ';', seq![]);
    let parts = split(t, ';');
    assert(parts =~= seq![front, second]);
    let n = number.len() as int;
    assert(front[n] == ':');
    assert(front.contains(':'));
    assert forall|k: int| 0 <= k < n implies front[k] != ':' by {
        assert(front[k] == number[k]);
    }
    lemma_first_of_is(front, ':', n);
    assert(front.take(n) =~= number);
    assert(front.skip(n + 1) =~= size);
}

/// A line without a semicolon, or with one and no colon before it, describes no monitor.
pub proof fn lines_of_no_form(line: Seq<char>, first: Seq<char>, second: Seq<char>)
    requires
        !line.contains('\n'),
        !first.contains(';'),
        !second.contains(';'),
        trimmed(line) == first || (trimmed(line) == first + seq![';'] + second && !first.contains(
            ':',
        )),
    ensures
        listed_monitors(line).len() == 0,
        ascii_listed_monitors(line).len() == 0,
{
    lemma_one_line(line);
    lemma_split_front(first, ';', second);
    lemma_split_front(second, ';', seq![]);
    if trimmed(line) == first + seq![';'] + second {
        assert(split(trimmed(line), ';') =~= seq![first, second]);
    }
}

/// What a line is read as, whatever stands for it in capitals: that decides whether the monitor is
/// primary and nothing else. The fields are those between semicolons. Three or more give a number
/// and edges of which the last two lie outside; two give a number before the first colon, a
/// resolution behind it, and edges of which the last two lie inside; one gives nothing.
pub proof fn fields_decide_all_but_the_mark(line: Seq<char>, upper: Seq<char>)
    ensures
        ({
            let fields = split(line, ';');
            let r = listed_monitor(line, upper);
            &&& r matches Some(m) ==> (m.is_primary <==> contains(upper, "PRIMARY"@))
            &&& fields.len() < 2 ==> r is None
            &&& fields.len() >= 3 ==> {
                let id = unsigned_value(trimmed(fields[0]), 0xffff_ffff);
                let n = numbers(fields[1]);
                &&& r is Some <==> id is Some && n.len() >= 4
                &&& r matches Some(m) ==> {
                    &&& m.mstsc_id == id->0
                    &&& m.left == n[0] && m.top == n[1]
                    &&& m.width == span(n[0], n[2] as int) && m.height == span(n[1], n[3] as int)
                }
            }
            &&& fields.len() == 2 ==> {
                let n = numbers(fields[1]);
                &&& !fields[0].contains(':') ==> r is None
                &&& forall|number: Seq<char>, size: Seq<char>|
                    fields[0] == #[trigger] (number + seq![':'] + size) && !number.contains(':')
                        ==> {
                        let id = unsigned_value(trimmed(number), 0xffff_ffff);
                        &&& r is Some <==> is_size(size) && id is Some && n.len() >= 4
                        &&& r matches Some(m) ==> {
                            &&& m.mstsc_id == id->0
                            &&& m.left == n[0] && m.top == n[1]
                            &&& m.width == span(n[0], n[2] + 1) && m.height == span(n[1], n[3] + 1)
                        }
                    }
            }
        }),
{
    let fields = split(line, ';');
    if fields.len() == 2 {
        assert forall|number: Seq<char>, size: Seq<char>|
            fields[0] == #[trigger] (number + seq![':'] + size) && !number.contains(
                ':',
            ) implies fields[0].contains(':') && fields[0].take(first_of(fields[0], ':')) == number
            && fields[0].skip(first_of(fields[0], ':') + 1) == size by {
            let n = number.len() as int;
            assert(fields[0][n] == ':');
            assert forall|k: int| 0 <= k < n implies fields[0][k] != ':' by {
                assert(fields[0][k] == number[k]);
            }
            lemma_first_of_is(fields[0], ':', n);
            assert(fields[0].take(n) =~= number);
            assert(fields[0].skip(n + 1) =~= size);
        }
    }
}

/// A line of the form `id; (left, top, right, bottom);`, whatever follows up to its end, gives one
/// monitor: with that number, at that place, as wide and high as its edges are apart, and primary
/// exactly where the line in capitals holds `PRIMARY`.
pub proof fn line_with_edges_first_is_one_monitor(
    id: u32,
    left: i32,
    top: i32,
    right: i32,
    bottom: i32,
    rest: Seq<char>,
)
    requires
        !rest.contains('\n'),
        rest.len() > 0 ==> !is_white_space(rest.last()),
    ensures
        ({
            let edges = edges_text(left as int, top as int, right as int, bottom as int);
            let line = decimal(id as nat) + ";"@ + (" "@ + edges) + ";"@ + rest;
            let all = ascii_listed_monitors(line);
            &&& all.len() == 1
            &&& listed_monitors(line).len() == 1
            &&& all[0].mstsc_id == id && listed_monitors(line)[0].mstsc_id == id
            &&& all[0].left == left && all[0].top == top
            &&& listed_monitors(line)[0].left == left && listed_monitors(line)[0].top == top
            &&& left <= right ==> all[0].width == right - left && listed_monitors(line)[0].width
                == right - left
            &&& top <= bottom ==> all[0].height == bottom - top && listed_monitors(line)[0].height
                == bottom - top
            &&& all[0].is_primary == contains(ascii_uppercased(line), "PRIMARY"@)
            &&& listed_monitors(line)[0].is_primary == contains(uppercased(line), "PRIMARY"@)
        }),
{
    reveal_strlit(";");
    reveal_strlit(" ");
    let number = decimal(id as nat);
    let edges = edges_text(left as int, top as int, right as int, bottom as int);
    let second = " "@ + edges;
    let line = number + ";"@ + second + ";"@ + rest;
    lemma_id_reads_back(id);
    lemma_edges_plain(left as int, top as int, right as int, bottom as int);
    lemma_plain_sum(" "@, edges);
    assert(line[0] == number[0]);
    assert(line.last() == if rest.len() > 0 {
        rest.last()
    } else {
        ';'
    });
    lemma_trim_nothing(line);
    assert(!line.contains('\n')) by {
        if line.contains('\n') {
            let k = choose|k: int| 0 <= k < line.len() && line[k] == '\n';
            let a = number.len() as int;
            let b = a + 1 + second.len();
            if k < a {
                assert(line[k] == number[k]);
                assert(is_plain(number[k]));
            } else if a < k < b {
                assert(line[k] == second[k - a - 1]);
                assert(is_plain(second[k - a - 1]));
            } else if k > b {
                assert(line[k] == rest[k - b - 1]);
            }
        }
    }
    assert(";"@ =~= seq![';']);
    lines_of_three_fields(line, number, second, rest);
    lemma_edges_read_back(left, top, right, bottom);
    assert(second =~= seq![' '] + edges);
}

/// The line that a listing with marks writes for a monitor: `id; (left, top, right, bottom);`, with
/// the last coordinates just outside, its resolution, and `[PRIMARY]` where it is primary.
pub open spec fn marked_line(m: LiveMonitor) -> Seq<char> {
    decimal(m.mstsc_id as nat) + ";"@ + (" "@ + edges_text(
        m.left as int,
        m.top as int,
        m.left + m.width,
        m.top + m.height,
    )) + ";"@ + (" ("@ + decimal(m.width as nat) + " x "@ + decimal(m.height as nat) + ")"@ + (if m.is_primary {
        "  [PRIMARY]"@
    } else {
        ""@
    }))
}

proof fn lemma_marked_line(m: LiveMonitor)
    requires
        m.left + m.width <= i32::MAX,
        m.top + m.height <= i32::MAX,
    ensures
        ascii_listed_monitors(marked_line(m)) == seq![m],
        !marked_line(m).contains('\n'),
        marked_line(m).len() > 0,
        is_ascii_text(marked_line(m)),
{
    reveal_strlit(" (");
    reveal_strlit(" x ");
    reveal_strlit(")");
    reveal_strlit("  [PRIMARY]");
    reveal_strlit("");
    reveal_strlit("PRIMARY");
    reveal_strlit(";");
    reveal_strlit(" ");
    let w = decimal(m.width as nat);
    let h = decimal(m.height as nat);
    let size = " ("@ + w + " x "@ + h + ")"@;
    let mark = if m.is_primary {
        "  [PRIMARY]"@
    } else {
        ""@
    };
    let rest = size + mark;
    let right = (m.left + m.width) as i32;
    let bottom = (m.top + m.height) as i32;
    lemma_id_reads_back(m.width);
    lemma_id_reads_back(m.height);
    lemma_plain_sum(" ("@, w);
    lemma_plain_sum(" ("@ + w, " x "@);
    lemma_plain_sum(" ("@ + w + " x "@, h);
    lemma_plain_sum(" ("@ + w + " x "@ + h, ")"@);
    assert(all_plain(size));
    assert forall|k: int| 0 <= k < rest.len() implies rest[k] != '\n' && (#[trigger] rest[k] as u32)
        < 0x80 by {
        if k < size.len() {
            assert(rest[k] == size[k]);
            assert(is_plain(size[k]));
        } else {
            assert(rest[k] == mark[k - size.len()]);
        }
    }
    assert(size.last() == ')');
    assert(rest.last() == if m.is_primary {
        ']'
    } else {
        ')'
    });
    line_with_edges_first_is_one_monitor(m.mstsc_id, m.left, m.top, right, bottom, rest);
    let edges = edges_text(m.left as int, m.top as int, right as int, bottom as int);
    let number = decimal(m.mstsc_id as nat);
    let front = number + ";"@ + (" "@ + edges) + ";"@;
    let line = marked_line(m);
    lemma_id_reads_back(m.mstsc_id);
    lemma_edges_plain(m.left as int, m.top as int, right as int, bottom as int);
    lemma_plain_sum(" "@, edges);
    lemma_plain_sum(number, ";"@);
    lemma_plain_sum(number + ";"@, " "@ + edges);
    lemma_plain_sum(number + ";"@ + (" "@ + edges), ";"@);
    assert(all_plain(front));
    assert(line == front + rest);
    assert forall|k: int| 0 <= k < line.len() implies line[k] != '\n' && (#[trigger] line[k] as u32)
        < 0x80 by {
        if k < front.len() {
            assert(line[k] == front[k]);
            assert(is_plain(front[k]));
        } else {
            assert(line[k] == rest[k - front.len()]);
        }
    }
    let upper = ascii_uppercased(line);
    if m.is_primary {
        let at = (front.len() + size.len() + 3) as int;
        assert("PRIMARY"@.is_prefix_of(upper.skip(at))) by {
            assert forall|k: int| 0 <= k < 7 implies upper.skip(at)[k] == "PRIMARY"@[k] by {
                assert(line[at + k] == mark[3 + k]);
            }
            assert("PRIMARY"@ =~= upper.skip(at).subrange(0, 7));
        }
        assert(occurs_at(upper, "PRIMARY"@, at));
    } else {
        assert(line =~= front + size);
        lemma_plain_sum(front, size);
        lemma_plain_is_not_primary(line);
    }
    assert(ascii_listed_monitors(line) =~= seq![m]);
}

/// Reading a listing with marks gives the monitors, with their numbers and the mark of the primary
/// one, in their order.
pub proof fn marked_listing_reads_back(monitors: Seq<LiveMonitor>)
    requires
        forall|i: int|
            0 <= i < monitors.len() ==> (#[trigger] monitors[i]).left + monitors[i].width
                <= i32::MAX && monitors[i].top + monitors[i].height <= i32::MAX,
    ensures
        ascii_listed_monitors(
            join(monitors.map_values(|m: LiveMonitor| marked_line(m)), "\n"@),
        ) == monitors,
    decreases monitors.len(),
{
    reveal_strlit("\n");
    assert("\n"@ =~= seq!['\n']);
    let write = |m: LiveMonitor| marked_line(m);
    let all = monitors.map_values(write);
    if monitors.len() == 0 {
        let nothing = Seq::<char>::empty();
        assert(join(all, "\n"@) =~= nothing);
        lines_end_at_feeds(nothing, nothing);
        assert(ascii_listed_monitors(join(all, "\n"@)) =~= monitors);
    } else {
        let front = monitors.drop_last();
        let last = monitors[monitors.len() - 1];
        assert forall|i: int| 0 <= i < front.len() implies (#[trigger] front[i]).left
            + front[i].width <= i32::MAX && front[i].top + front[i].height <= i32::MAX by {
            assert(front[i] == monitors[i]);
        }
        marked_listing_reads_back(front);
        lemma_marked_line(last);
        let before = front.map_values(write);
        assert(all =~= before.push(marked_line(last)));
        join_separates_neighbours(before, marked_line(last), "\n"@);
        if front.len() > 0 {
            lines_are_read_one_by_one(join(before, "\n"@), marked_line(last));
        }
        assert(front.push(last) =~= monitors);
        assert(front + seq![last] =~= monitors);
    }
}

} // verus!
