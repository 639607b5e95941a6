//! Characters and strings: trimming, lines, splitting, searching and joining.
use vstd::prelude::*;
use vstd::slice::slice_subrange;
use vstd::string::StringExecFns;

verus! {

/// `String::push` appends one character at the end of the string.
pub assume_specification[ String::push ](s: &mut String, c: char)
    ensures
        final(s)@ == old(s)@.push(c),
;

/// The Unicode property `White_Space`.
pub open spec fn is_white_space(c: char) -> bool {
    let n = c as u32;
    ||| 0x09 <= n <= 0x0d
    ||| n == 0x20
    ||| n == 0x85
    ||| n == 0xa0
    ||| n == 0x1680
    ||| 0x2000 <= n <= 0x200a
    ||| n == 0x2028
    ||| n == 0x2029
    ||| n == 0x202f
    ||| n == 0x205f
    ||| n == 0x3000
}

/// `s` without its leading white space.
pub open spec fn trim_start(s: Seq<char>) -> Seq<char>
    decreases s.len(),
{
    if s.len() > 0 && is_white_space(s[0]) {
        trim_start(s.skip(1))
    } else {
        s
    }
}

/// `s` without its trailing white space.
pub open spec fn trim_end(s: Seq<char>) -> Seq<char>
    decreases s.len(),
{
    if s.len() > 0 && is_white_space(s.last()) {
        trim_end(s.drop_last())
    } else {
        s
    }
}

/// `s` without the white space at either end.
pub open spec fn trimmed(s: Seq<char>) -> Seq<char> {
    trim_end(trim_start(s))
}

/// The index of the first `c` in `s`, or the length of `s` where there is none.
pub open spec fn first_of(s: Seq<char>, c: char) -> int
    decreases s.len(),
{
    if s.len() == 0 || s[0] == c {
        0
    } else {
        1 + first_of(s.skip(1), c)
    }
}

/// The index at which `pattern` first occurs in `s`, or the length of `s` where it does not.
pub open spec fn find(s: Seq<char>, pattern: Seq<char>) -> int
    decreases s.len(),
{
    if s.len() == 0 || pattern.is_prefix_of(s) {
        0
    } else {
        1 + find(s.skip(1), pattern)
    }
}

/// Some stretch of `s` equals `pattern`.
pub open spec fn contains(s: Seq<char>, pattern: Seq<char>) -> bool {
    exists|i: int| #[trigger] occurs_at(s, pattern, i)
}

/// The stretch of `s` that starts at `i` equals `pattern`.
pub open spec fn occurs_at(s: Seq<char>, pattern: Seq<char>, i: int) -> bool {
    0 <= i <= s.len() && pattern.is_prefix_of(s.skip(i))
}

/// The stretches of `s` between occurrences of `c`: one more than there are occurrences.
pub open spec fn split(s: Seq<char>, c: char) -> Seq<Seq<char>>
    decreases s.len(),
{
    let i = first_of(s, c);
    if 0 <= i < s.len() {
        seq![s.take(i)] + split(s.skip(i + 1), c)
    } else {
        seq![s]
    }
}

/// `s` without one carriage return at its end.
pub open spec fn strip_return(s: Seq<char>) -> Seq<char> {
    if s.len() > 0 && s.last() == '\r' {
        s.drop_last()
    } else {
        s
    }
}

/// The lines of `s`. A line ends at a line feed, with one carriage return before it dropped; what
/// follows the last line feed is a line of its own unless it is empty.
pub open spec fn lines(s: Seq<char>) -> Seq<Seq<char>>
    decreases s.len(),
{
    let i = first_of(s, '\n');
    if s.len() == 0 {
        seq![]
    } else if 0 <= i < s.len() {
        seq![strip_return(s.take(i))] + lines(s.skip(i + 1))
    } else {
        seq![s]
    }
}

/// `parts` one after another with `separator` between neighbours.
pub open spec fn join(parts: Seq<Seq<char>>, separator: Seq<char>) -> Seq<char>
    decreases parts.len(),
{
    if parts.len() == 0 {
        seq![]
    } else if parts.len() == 1 {
        parts[0]
    } else {
        join(parts.drop_last(), separator) + separator + parts.last()
    }
}

/// The texts of a list of character slices.
pub open spec fn views(parts: Seq<&[char]>) -> Seq<Seq<char>> {
    parts.map_values(|p: &[char]| p@)
}

/// The texts of a list of strings.
pub open spec fn texts(parts: Seq<String>) -> Seq<Seq<char>> {
    parts.map_values(|p: String| p@)
}

/// The text that a result carries, be it a value or an error.
pub open spec fn text_result(r: Result<String, String>) -> Result<Seq<char>, Seq<char>> {
    match r {
        Ok(s) => Ok(s@),
        Err(e) => Err(e@),
    }
}

/// The first place of a character: it stands there, and nowhere before; the end where it is not.
pub proof fn lemma_first_of(s: Seq<char>, c: char)
    ensures
        0 <= first_of(s, c) <= s.len(),
        forall|k: int| 0 <= k < first_of(s, c) ==> s[k] != c,
        first_of(s, c) < s.len() ==> s[first_of(s, c)] == c,
    decreases s.len(),
{
    if s.len() > 0 && s[0] != c {
        let rest = s.skip(1);
        lemma_first_of(rest, c);
        assert forall|k: int| 0 <= k < first_of(s, c) implies s[k] != c by {
            if k > 0 {
                assert(rest[k - 1] == s[k]);
            }
        }
        if first_of(s, c) < s.len() {
            assert(rest[first_of(rest, c)] == s[first_of(s, c)]);
        }
    }
}

/// `first_of` is the only index with its three properties.
pub(crate) proof fn lemma_first_of_is(s: Seq<char>, c: char, i: int)
    requires
        0 <= i <= s.len(),
        forall|k: int| 0 <= k < i ==> s[k] != c,
        i < s.len() ==> s[i] == c,
    ensures
        first_of(s, c) == i,
{
    lemma_first_of(s, c);
    let j = first_of(s, c);
    if j < i {
        assert(s[j] != c);
    }
    if i < j {
        assert(s[i] != c);
    }
}

/// `join` taken apart at the front.
pub(crate) proof fn lemma_join_front(parts: Seq<Seq<char>>, separator: Seq<char>)
    requires
        parts.len() >= 2,
    ensures
        join(parts, separator) == parts[0] + separator + join(parts.skip(1), separator),
    decreases parts.len(),
{
    let rest = parts.skip(1);
    assert(rest.last() == parts.last());
    if parts.len() == 2 {
        assert(parts.drop_last().len() == 1);
        assert(join(parts.drop_last(), separator) == parts[0]);
        assert(join(rest, separator) == parts[1]);
    } else {
        lemma_join_front(parts.drop_last(), separator);
        assert(parts.drop_last().skip(1) =~= rest.drop_last());
        assert(join(parts, separator) =~= parts[0] + separator + join(rest, separator));
    }
}

/// Joining parts with a character that none of them holds, and splitting there again, gives the
/// parts.
pub proof fn split_undoes_join(parts: Seq<Seq<char>>, c: char)
    requires
        parts.len() > 0,
        forall|i: int| 0 <= i < parts.len() ==> !(#[trigger] parts[i]).contains(c),
    ensures
        split(join(parts, seq![c]), c) == parts,
    decreases parts.len(),
{
    let whole = join(parts, seq![c]);
    let first = parts[0];
    assert(!first.contains(c));
    if parts.len() == 1 {
        lemma_first_of_is(whole, c, whole.len() as int);
        assert(split(whole, c) =~= parts);
    } else {
        let rest = parts.skip(1);
        assert forall|i: int| 0 <= i < rest.len() implies !(#[trigger] rest[i]).contains(c) by {
            assert(rest[i] == parts[i + 1]);
        }
        split_undoes_join(rest, c);
        lemma_join_front(parts, seq![c]);
        let n = first.len() as int;
        assert(whole[n] == c);
        assert forall|k: int| 0 <= k < n implies whole[k] != c by {
            assert(whole[k] == first[k]);
        }
        lemma_first_of_is(whole, c, n);
        assert(whole.take(n) =~= first);
        assert(whole.skip(n + 1) =~= join(rest, seq![c]));
        assert(seq![first] + rest =~= parts);
    }
}

/// No line holds a line feed.
pub(crate) proof fn lemma_lines_without_feed(s: Seq<char>)
    ensures
        forall|i: int| 0 <= i < lines(s).len() ==> !(#[trigger] lines(s)[i]).contains('\n'),
    decreases s.len(),
{
    let i = first_of(s, '\n');
    lemma_first_of(s, '\n');
    if s.len() > 0 {
        let line = strip_return(s.take(i));
        assert forall|k: int| 0 <= k < line.len() implies line[k] != '\n' by {
            assert(line[k] == s[k]);
        }
        if i < s.len() {
            lemma_lines_without_feed(s.skip(i + 1));
            assert forall|k: int| 0 <= k < lines(s).len() implies !(#[trigger] lines(
                s,
            )[k]).contains('\n') by {
                if k > 0 {
                    assert(lines(s)[k] == lines(s.skip(i + 1))[k - 1]);
                }
            }
        } else {
            assert(lines(s) =~= seq![s]);
            assert(forall|k: int| 0 <= k < s.len() ==> s[k] != '\n');
        }
    }
}

/// The lines hold no other characters than the text.
pub(crate) proof fn lemma_lines_within(s: Seq<char>)
    ensures
        forall|i: int, k: int|
            0 <= i < lines(s).len() && 0 <= k < lines(s)[i].len() ==> s.contains(
                #[trigger] lines(s)[i][k],
            ),
    decreases s.len(),
{
    let n = first_of(s, '\n');
    lemma_first_of(s, '\n');
    if s.len() > 0 {
        if n < s.len() {
            let rest = s.skip(n + 1);
            lemma_lines_within(rest);
            assert forall|i: int, k: int|
                0 <= i < lines(s).len() && 0 <= k < lines(s)[i].len() implies s.contains(
                #[trigger] lines(s)[i][k],
            ) by {
                if i == 0 {
                    assert(s[k] == lines(s)[i][k]);
                } else {
                    assert(lines(s)[i] == lines(rest)[i - 1]);
                    let j = choose|j: int| 0 <= j < rest.len() && rest[j] == lines(rest)[i - 1][k];
                    assert(s[n + 1 + j] == lines(s)[i][k]);
                }
            }
        } else {
            assert(lines(s) =~= seq![s]);
        }
    }
}

/// The trimmed text holds no other characters than the text.
pub(crate) proof fn lemma_trimmed_within(s: Seq<char>)
    ensures
        forall|k: int| 0 <= k < trimmed(s).len() ==> s.contains(#[trigger] trimmed(s)[k]),
{
    lemma_trim_start_within(s);
    let t = trim_start(s);
    lemma_trim_end_within(t);
    assert forall|k: int| 0 <= k < trimmed(s).len() implies s.contains(
        #[trigger] trimmed(s)[k],
    ) by {
        assert(t.contains(trim_end(t)[k]));
        let j = choose|j: int| 0 <= j < t.len() && t[j] == trimmed(s)[k];
        assert(s.contains(t[j]));
    }
}

/// White space at the end makes no difference to the trimmed text.
pub(crate) proof fn lemma_trim_push_white(s: Seq<char>, c: char)
    requires
        is_white_space(c),
    ensures
        trimmed(s.push(c)) == trimmed(s),
{
    lemma_trim_start_push_white(s, c);
    let t = trim_start(s);
    assert(t.push(c).drop_last() =~= t);
}

proof fn lemma_trim_start_push_white(s: Seq<char>, c: char)
    requires
        is_white_space(c),
    ensures
        trim_start(s.push(c)) == if trim_start(s).len() == 0 {
            seq![]
        } else {
            trim_start(s).push(c)
        },
    decreases s.len(),
{
    if s.len() == 0 {
        assert(s.push(c).skip(1) =~= seq![]);
        assert(trim_start(s.push(c).skip(1)) =~= seq![]);
    } else if is_white_space(s[0]) {
        assert(s.push(c).skip(1) =~= s.skip(1).push(c));
        lemma_trim_start_push_white(s.skip(1), c);
    }
}

/// The lines of two texts with a line feed between them, taken apart at the first line feed.
pub(crate) proof fn lemma_lines_of_two(a: Seq<char>, b: Seq<char>)
    ensures
        ({
            let n = first_of(a, '\n');
            lines(a + seq!['\n'] + b) == if n < a.len() {
                seq![strip_return(a.take(n))] + lines(a.skip(n + 1) + seq!['\n'] + b)
            } else {
                seq![strip_return(a)] + lines(b)
            }
        }),
{
    let n = first_of(a, '\n');
    let s = a + seq!['\n'] + b;
    lemma_first_of(a, '\n');
    assert forall|k: int| 0 <= k < n implies s[k] != '\n' by {
        assert(s[k] == a[k]);
    }
    lemma_first_of_is(s, '\n', n);
    assert(s.take(n) =~= a.take(n));
    if n < a.len() {
        assert(s.skip(n + 1) =~= a.skip(n + 1) + seq!['\n'] + b);
    } else {
        assert(a.take(n) =~= a);
        assert(s.skip(n + 1) =~= b);
    }
}

/// Trimming drops no character but white space.
pub(crate) proof fn lemma_trimmed_keeps(s: Seq<char>, c: char)
    requires
        s.contains(c),
        !is_white_space(c),
    ensures
        trimmed(s).contains(c),
{
    lemma_trim_start_keeps(s, c);
    lemma_trim_end_keeps(trim_start(s), c);
}

proof fn lemma_trim_start_keeps(s: Seq<char>, c: char)
    requires
        s.contains(c),
        !is_white_space(c),
    ensures
        trim_start(s).contains(c),
    decreases s.len(),
{
    if is_white_space(s[0]) {
        let k = choose|k: int| 0 <= k < s.len() && s[k] == c;
        assert(s.skip(1)[k - 1] == c);
        lemma_trim_start_keeps(s.skip(1), c);
    }
}

proof fn lemma_trim_end_keeps(s: Seq<char>, c: char)
    requires
        s.contains(c),
        !is_white_space(c),
    ensures
        trim_end(s).contains(c),
    decreases s.len(),
{
    if is_white_space(s.last()) {
        let k = choose|k: int| 0 <= k < s.len() && s[k] == c;
        assert(s.drop_last()[k] == c);
        lemma_trim_end_keeps(s.drop_last(), c);
    }
}

proof fn lemma_trim_start_within(s: Seq<char>)
    ensures
        forall|k: int| 0 <= k < trim_start(s).len() ==> s.contains(#[trigger] trim_start(s)[k]),
    decreases s.len(),
{
    if s.len() > 0 && is_white_space(s[0]) {
        let rest = s.skip(1);
        lemma_trim_start_within(rest);
        assert forall|k: int| 0 <= k < trim_start(s).len() implies s.contains(
            #[trigger] trim_start(s)[k],
        ) by {
            assert(rest.contains(trim_start(rest)[k]));
            let j = choose|j: int| 0 <= j < rest.len() && rest[j] == trim_start(s)[k];
            assert(s[j + 1] == trim_start(s)[k]);
        }
    }
}

proof fn lemma_trim_end_within(s: Seq<char>)
    ensures
        forall|k: int| 0 <= k < trim_end(s).len() ==> s.contains(#[trigger] trim_end(s)[k]),
    decreases s.len(),
{
    if s.len() > 0 && is_white_space(s.last()) {
        let rest = s.drop_last();
        lemma_trim_end_within(rest);
        assert forall|k: int| 0 <= k < trim_end(s).len() implies s.contains(
            #[trigger] trim_end(s)[k],
        ) by {
            assert(rest.contains(trim_end(rest)[k]));
            let j = choose|j: int| 0 <= j < rest.len() && rest[j] == trim_end(s)[k];
            assert(s[j] == trim_end(s)[k]);
        }
    }
}

/// The lines without the last one, if that is empty.
pub open spec fn without_blank_end(all: Seq<Seq<char>>) -> Seq<Seq<char>> {
    if all.len() > 0 && all.last().len() == 0 {
        all.drop_last()
    } else {
        all
    }
}

/// Joining lines with `"\r\n"` and taking the lines again gives the lines, but for a last one that
/// is empty.
pub proof fn lines_undo_join(all: Seq<Seq<char>>)
    requires
        forall|i: int| 0 <= i < all.len() ==> !(#[trigger] all[i]).contains('\n'),
    ensures
        lines(join(all, seq!['\r', '\n'])) == without_blank_end(all),
    decreases all.len(),
{
    let crlf = seq!['\r', '\n'];
    let whole = join(all, crlf);
    if all.len() == 0 {
        assert(lines(whole) =~= all);
    } else if all.len() == 1 {
        assert(!all[0].contains('\n'));
        lemma_first_of_is(whole, '\n', whole.len() as int);
        assert(lines(whole) =~= without_blank_end(all));
    } else {
        let first = all[0];
        let rest = all.skip(1);
        assert forall|i: int| 0 <= i < rest.len() implies !(#[trigger] rest[i]).contains('\n') by {
            assert(rest[i] == all[i + 1]);
        }
        lines_undo_join(rest);
        lemma_join_front(all, crlf);
        let n = first.len() as int;
        assert(!first.contains('\n'));
        assert(whole[n] == '\r' && whole[n + 1] == '\n');
        assert forall|k: int| 0 <= k < n + 1 implies whole[k] != '\n' by {
            if k < n {
                assert(whole[k] == first[k]);
            }
        }
        lemma_first_of_is(whole, '\n', n + 1);
        assert(whole.take(n + 1) =~= first.push('\r'));
        assert(strip_return(whole.take(n + 1)) =~= first);
        assert(whole.skip(n + 2) =~= join(rest, crlf));
        assert(rest.last() == all.last());
        assert(seq![first] + without_blank_end(rest) =~= without_blank_end(all));
    }
}

/// Trimming keeps a beginning that itself neither begins nor ends with white space.
pub(crate) proof fn lemma_trim_keeps_prefix(s: Seq<char>, prefix: Seq<char>)
    requires
        prefix.len() > 0,
        !is_white_space(prefix[0]),
        !is_white_space(prefix.last()),
        prefix.is_prefix_of(s),
    ensures
        prefix.is_prefix_of(trimmed(s)),
{
    assert(s[0] == prefix[0]);
    assert(trim_start(s) == s);
    lemma_trim_end_keeps_prefix(s, prefix);
}

proof fn lemma_trim_end_keeps_prefix(s: Seq<char>, prefix: Seq<char>)
    requires
        prefix.len() > 0,
        !is_white_space(prefix.last()),
        prefix.is_prefix_of(s),
    ensures
        prefix.is_prefix_of(trim_end(s)),
    decreases s.len(),
{
    if is_white_space(s.last()) {
        assert(s.len() > prefix.len()) by {
            if s.len() == prefix.len() {
                assert(s.last() == prefix.last());
            }
        }
        assert(prefix.is_prefix_of(s.drop_last()));
        lemma_trim_end_keeps_prefix(s.drop_last(), prefix);
    }
}

/// Trimming leaves a text as it is that neither begins nor ends with white space.
pub(crate) proof fn lemma_trim_nothing(s: Seq<char>)
    requires
        s.len() > 0 ==> !is_white_space(s[0]) && !is_white_space(s.last()),
    ensures
        trimmed(s) == s,
{
}

/// Trimming takes out the stretch from the first to the last character that is no white space:
/// everything outside of it is white space, and it neither begins nor ends with any.
pub proof fn trimmed_is_the_middle(s: Seq<char>)
    ensures
        exists|a: int, b: int|
            #![trigger s.subrange(a, b)]
            {
                &&& 0 <= a <= b <= s.len()
                &&& trimmed(s) == s.subrange(a, b)
                &&& forall|k: int| 0 <= k < a || b <= k < s.len() ==> is_white_space(s[k])
                &&& a < b ==> !is_white_space(s[a]) && !is_white_space(s[b - 1])
            },
{
    let a = lemma_trim_start_middle(s);
    let t = s.skip(a);
    let e = lemma_trim_end_middle(t);
    let b = a + e;
    assert(trimmed(s) =~= s.subrange(a, b));
    assert forall|k: int| 0 <= k < a || b <= k < s.len() implies is_white_space(s[k]) by {
        if b <= k {
            assert(t[k - a] == s[k]);
        }
    }
    if a < b {
        assert(t[0] == s[a] && t[e - 1] == s[b - 1]);
    }
}

/// White space around a stretch that neither begins nor ends with any is what trimming takes away.
pub proof fn trimming_takes_what_is_around(
    before: Seq<char>,
    core: Seq<char>,
    after: Seq<char>,
)
    requires
        forall|k: int| 0 <= k < before.len() ==> is_white_space(#[trigger] before[k]),
        forall|k: int| 0 <= k < after.len() ==> is_white_space(#[trigger] after[k]),
        core.len() > 0 ==> !is_white_space(core[0]) && !is_white_space(core.last()),
    ensures
        trimmed(before + core + after) == core,
{
    let s = before + core + after;
    let i = before.len() as int;
    let j = i + core.len();
    trimmed_is_the_middle(s);
    let (a, b) = choose|a: int, b: int|
        #![trigger s.subrange(a, b)]
        {
            &&& 0 <= a <= b <= s.len()
            &&& trimmed(s) == s.subrange(a, b)
            &&& forall|k: int| 0 <= k < a || b <= k < s.len() ==> is_white_space(s[k])
            &&& a < b ==> !is_white_space(s[a]) && !is_white_space(s[b - 1])
        };
    assert forall|k: int| 0 <= k < i || j <= k < s.len() implies is_white_space(#[trigger] s[k]) by {
        if k < i {
            assert(s[k] == before[k]);
        } else {
            assert(s[k] == after[k - j]);
        }
    }
    if core.len() > 0 {
        assert(s[i] == core[0] && s[j - 1] == core[core.len() - 1]);
        assert(a == i && b == j);
        assert(s.subrange(a, b) =~= core);
    } else {
        if a < b {
            assert(is_white_space(s[a]));
        }
        assert(s.subrange(a, b) =~= core);
    }
}

proof fn lemma_trim_start_middle(s: Seq<char>) -> (a: int)
    ensures
        0 <= a <= s.len(),
        trim_start(s) == s.skip(a),
        forall|k: int| 0 <= k < a ==> is_white_space(s[k]),
        a < s.len() ==> !is_white_space(s[a]),
    decreases s.len(),
{
    if s.len() > 0 && is_white_space(s[0]) {
        let rest = s.skip(1);
        let a = lemma_trim_start_middle(rest);
        assert(rest.skip(a) =~= s.skip(a + 1));
        assert forall|k: int| 0 <= k < a + 1 implies is_white_space(s[k]) by {
            if k > 0 {
                assert(rest[k - 1] == s[k]);
            }
        }
        if a + 1 < s.len() {
            assert(rest[a] == s[a + 1]);
        }
        a + 1
    } else {
        assert(s.skip(0) =~= s);
        0
    }
}

proof fn lemma_trim_end_middle(s: Seq<char>) -> (b: int)
    ensures
        0 <= b <= s.len(),
        trim_end(s) == s.take(b),
        forall|k: int| b <= k < s.len() ==> is_white_space(s[k]),
        0 < b ==> !is_white_space(s[b - 1]),
    decreases s.len(),
{
    if s.len() > 0 && is_white_space(s.last()) {
        let rest = s.drop_last();
        let b = lemma_trim_end_middle(rest);
        assert(rest.take(b) =~= s.take(b));
        assert forall|k: int| b <= k < s.len() implies is_white_space(s[k]) by {
            if k < rest.len() {
                assert(rest[k] == s[k]);
            }
        }
        b
    } else {
        assert(s.take(s.len() as int) =~= s);
        s.len() as int
    }
}

/// Searching finds the first place at which the pattern stands, and the end where there is none.
pub proof fn find_is_the_first_place(s: Seq<char>, pattern: Seq<char>)
    ensures
        0 <= find(s, pattern) <= s.len(),
        forall|k: int| 0 <= k < find(s, pattern) ==> !pattern.is_prefix_of(#[trigger] s.skip(k)),
        find(s, pattern) < s.len() ==> pattern.is_prefix_of(s.skip(find(s, pattern))),
    decreases s.len(),
{
    assert(s.skip(0) =~= s);
    if s.len() > 0 && !pattern.is_prefix_of(s) {
        let rest = s.skip(1);
        find_is_the_first_place(rest, pattern);
        assert forall|k: int| 0 <= k < find(s, pattern) implies !pattern.is_prefix_of(
            #[trigger] s.skip(k),
        ) by {
            if k > 0 {
                assert(rest.skip(k - 1) =~= s.skip(k));
            }
        }
        assert(rest.skip(find(rest, pattern)) =~= s.skip(find(s, pattern)));
    }
}

/// A text holds a pattern exactly where some stretch of the pattern's length equals it.
pub proof fn contains_is_a_stretch(s: Seq<char>, pattern: Seq<char>)
    ensures
        contains(s, pattern) <==> exists|i: int|
            0 <= i && i + pattern.len() <= s.len() && #[trigger] s.subrange(i, i + pattern.len())
                == pattern,
{
    if contains(s, pattern) {
        let i = choose|i: int| occurs_at(s, pattern, i);
        assert(s.subrange(i, i + pattern.len()) =~= pattern) by {
            assert forall|k: int| 0 <= k < pattern.len() implies s[i + k] == pattern[k] by {
                assert(s.skip(i)[k] == pattern[k]);
            }
        }
    }
    if exists|i: int|
        0 <= i && i + pattern.len() <= s.len() && #[trigger] s.subrange(i, i + pattern.len())
            == pattern {
        let i = choose|i: int|
            0 <= i && i + pattern.len() <= s.len() && #[trigger] s.subrange(i, i + pattern.len())
                == pattern;
        assert(pattern.is_prefix_of(s.skip(i))) by {
            assert forall|k: int| 0 <= k < pattern.len() implies s.skip(i)[k] == pattern[k] by {
                assert(s.subrange(i, i + pattern.len())[k] == pattern[k]);
            }
            assert(pattern =~= s.skip(i).subrange(0, pattern.len() as int));
        }
        assert(occurs_at(s, pattern, i));
    }
}

/// Splitting loses nothing: the parts, of which none holds the separator, joined with it again
/// are the text.
pub proof fn join_undoes_split(s: Seq<char>, c: char)
    ensures
        split(s, c).len() > 0,
        forall|i: int| 0 <= i < split(s, c).len() ==> !(#[trigger] split(s, c)[i]).contains(c),
        join(split(s, c), seq![c]) == s,
    decreases s.len(),
{
    let n = first_of(s, c);
    lemma_first_of(s, c);
    if n < s.len() {
        let rest = s.skip(n + 1);
        let parts = split(s, c);
        join_undoes_split(rest, c);
        assert(parts.skip(1) =~= split(rest, c));
        lemma_join_front(parts, seq![c]);
        assert(join(parts, seq![c]) =~= s);
        assert forall|i: int| 0 <= i < parts.len() implies !(#[trigger] parts[i]).contains(c) by {
            if i == 0 {
                assert forall|k: int| 0 <= k < parts[0].len() implies parts[0][k] != c by {
                    assert(parts[0][k] == s[k]);
                }
            } else {
                assert(parts[i] == split(rest, c)[i - 1]);
            }
        }
    } else {
        assert(split(s, c) =~= seq![s]);
        assert(forall|k: int| 0 <= k < s.len() ==> s[k] != c);
    }
}

/// A line ends at the first line feed, and loses one carriage return before it; the lines behind
/// it are those of the text behind it. What no line feed ends is one line as it is.
pub proof fn lines_end_at_feeds(line: Seq<char>, rest: Seq<char>)
    requires
        !line.contains('\n'),
    ensures
        lines(line + seq!['\n'] + rest) == seq![
            if line.len() > 0 && line.last() == '\r' {
                line.drop_last()
            } else {
                line
            },
        ] + lines(rest),
        lines(line) == if line.len() == 0 {
            Seq::<Seq<char>>::empty()
        } else {
            seq![line]
        },
{
    lemma_first_of_is(line, '\n', line.len() as int);
    lemma_lines_of_two(line, rest);
    assert(line.take(line.len() as int) =~= line);
}

/// Joining puts one separator between neighbours and none elsewhere.
pub proof fn join_separates_neighbours(
    parts: Seq<Seq<char>>,
    last: Seq<char>,
    separator: Seq<char>,
)
    ensures
        join(seq![], separator) == Seq::<char>::empty(),
        join(parts.push(last), separator) == if parts.len() == 0 {
            last
        } else {
            join(parts, separator) + separator + last
        },
{
    assert(parts.push(last).drop_last() =~= parts);
}

/// Lists of strings and of character slices stand for the lists of their texts, one for one, and
/// a result for the text that it carries.
pub proof fn texts_are_one_for_one(
    strings: Seq<String>,
    slices: Seq<&[char]>,
    r: Result<String, String>,
)
    ensures
        texts(strings).len() == strings.len(),
        forall|i: int| 0 <= i < strings.len() ==> #[trigger] texts(strings)[i] == strings[i]@,
        views(slices).len() == slices.len(),
        forall|i: int| 0 <= i < slices.len() ==> #[trigger] views(slices)[i] == slices[i]@,
        r matches Ok(s) ==> text_result(r) == Ok::<Seq<char>, Seq<char>>(s@),
        r matches Err(e) ==> text_result(r) == Err::<Seq<char>, Seq<char>>(e@),
{
}

/// What is read of two lists of lines, one after the other.
pub(crate) proof fn lemma_filter_map_sum<B>(
    a: Seq<Seq<char>>,
    b: Seq<Seq<char>>,
    read: spec_fn(Seq<char>) -> Option<B>,
)
    ensures
        (a + b).filter_map(read) == a.filter_map(read) + b.filter_map(read),
    decreases b.len(),
{
    if b.len() == 0 {
        assert(a + b =~= a);
        assert(a.filter_map(read) + b.filter_map(read) =~= a.filter_map(read));
    } else {
        lemma_filter_map_sum(a, b.drop_last(), read);
        assert((a + b).drop_last() =~= a + b.drop_last());
        assert((a + b).last() == b.last());
        assert((a + b).filter_map(read) =~= a.filter_map(read) + b.filter_map(read));
    }
}

/// The characters of a string.
pub fn chars_of(s: &str) -> (r: Vec<char>)
    ensures
        r@ == s@,
{
    let mut r: Vec<char> = Vec::new();
    for c in it: s.chars()
        invariant
            it.seq() == s@,
            r@ == s@.take(it.index() as int),
    {
        r.push(c);
    }
    assert(r@ == s@);
    r
}

/// The string of some characters.
pub fn string_of(s: &[char]) -> (r: String)
    ensures
        r@ == s@,
{
    let mut r = String::new();
    let n: usize = s.len();
    let mut i: usize = 0;
    while i < n
        invariant
            n == s@.len(),
            i <= n,
            r@ == s@.take(i as int),
        decreases n - i,
    {
        r.push(s[i]);
        i = i + 1;
    }
    assert(s@.take(n as int) == s@);
    r
}

/// Tells whether two stretches of characters are equal.
pub fn same(a: &[char], b: &[char]) -> (r: bool)
    ensures
        r == (a@ == b@),
{
    let n: usize = a.len();
    if n != b.len() {
        return false;
    }
    let mut i: usize = 0;
    while i < n
        invariant
            n == a@.len(),
            n == b@.len(),
            i <= n,
            forall|k: int| 0 <= k < i ==> a@[k] == b@[k],
        decreases n - i,
    {
        if a[i] != b[i] {
            return false;
        }
        i = i + 1;
    }
    assert(a@ =~= b@);
    true
}

/// Tells whether two strings are equal.
pub fn same_text(a: &str, b: &str) -> (r: bool)
    ensures
        r == (a@ == b@),
{
    same(chars_of(a).as_slice(), chars_of(b).as_slice())
}

/// Tells whether a character has the Unicode property `White_Space`.
pub fn white_space(c: char) -> (r: bool)
    ensures
        r == is_white_space(c),
        r == (('\u{9}' <= c <= '\u{d}') || c == ' ' || c == '\u{85}' || c == '\u{a0}' || c
            == '\u{1680}' || ('\u{2000}' <= c <= '\u{200a}') || c == '\u{2028}' || c == '\u{2029}'
            || c == '\u{202f}' || c == '\u{205f}' || c == '\u{3000}'),
{
    let n: u32 = c as u32;
    (0x09 <= n && n <= 0x0d) || n == 0x20 || n == 0x85 || n == 0xa0 || n == 0x1680 || (0x2000 <= n
        && n <= 0x200a) || n == 0x2028 || n == 0x2029 || n == 0x202f || n == 0x205f || n == 0x3000
}

/// The stretch between the white space at either end.
pub fn trim(s: &[char]) -> (r: &[char])
    ensures
        r@ == trimmed(s@),
{
    let n: usize = s.len();
    let mut from: usize = 0;
    assert(s@.skip(0) == s@);
    while from < n && white_space(s[from])
        invariant
            n == s@.len(),
            from <= n,
            trim_start(s@) == trim_start(s@.skip(from as int)),
        decreases n - from,
    {
        assert(s@.skip(from as int).skip(1) == s@.skip(from + 1));
        from = from + 1;
    }
    let ghost rest = s@.skip(from as int);
    assert(trim_start(s@) == rest);
    let mut to: usize = n;
    assert(s@.subrange(from as int, to as int) == rest);
    while from < to && white_space(s[to - 1])
        invariant
            n == s@.len(),
            from <= to <= n,
            trim_end(rest) == trim_end(s@.subrange(from as int, to as int)),
        decreases to,
    {
        let ghost part = s@.subrange(from as int, to as int);
        assert(part.last() == s@[to - 1]);
        assert(part.drop_last() == s@.subrange(from as int, to - 1));
        to = to - 1;
    }
    assert(from < to ==> s@.subrange(from as int, to as int).last() == s@[to - 1]);
    slice_subrange(s, from, to)
}

/// The index of the first `c` in `s`, or the length of `s` where there is none.
pub fn index_of(s: &[char], c: char) -> (r: usize)
    ensures
        r == first_of(s@, c),
        r <= s@.len(),
{
    let n: usize = s.len();
    let mut i: usize = 0;
    while i < n && s[i] != c
        invariant
            n == s@.len(),
            i <= n,
            forall|k: int| 0 <= k < i ==> s@[k] != c,
        decreases n - i,
    {
        i = i + 1;
    }
    proof {
        lemma_first_of_is(s@, c, i as int);
    }
    i
}

/// Tells whether `s` begins with `prefix`.
pub fn starts_with(s: &[char], prefix: &[char]) -> (r: bool)
    ensures
        r == prefix@.is_prefix_of(s@),
{
    let n: usize = prefix.len();
    if s.len() < n {
        return false;
    }
    let r = same(slice_subrange(s, 0, n), prefix);
    assert(r == prefix@.is_prefix_of(s@));
    r
}

/// The index at which `pattern` first occurs in `s`, or the length of `s` where it does not.
pub fn position_of(s: &[char], pattern: &[char]) -> (r: usize)
    ensures
        r == find(s@, pattern@),
        r <= s@.len(),
{
    let n: usize = s.len();
    let mut i: usize = 0;
    assert(s@.skip(0) == s@);
    while i < n && !starts_with(slice_subrange(s, i, n), pattern)
        invariant
            n == s@.len(),
            i <= n,
            find(s@, pattern@) == i + find(s@.skip(i as int), pattern@),
        decreases n - i,
    {
        assert(s@.subrange(i as int, n as int) == s@.skip(i as int));
        assert(s@.skip(i as int).skip(1) == s@.skip(i + 1));
        i = i + 1;
    }
    assert(s@.subrange(i as int, n as int) == s@.skip(i as int));
    i
}

/// Tells whether some stretch of `s` equals `pattern`.
pub fn has(s: &[char], pattern: &[char]) -> (r: bool)
    ensures
        r == contains(s@, pattern@),
{
    let n: usize = s.len();
    let mut i: usize = 0;
    while i <= n
        invariant
            n == s@.len(),
            i <= n + 1,
            forall|k: int| 0 <= k < i ==> !#[trigger] occurs_at(s@, pattern@, k),
        decreases n + 1 - i,
    {
        let ghost rest = s@.skip(i as int);
        assert(s@.subrange(i as int, n as int) == rest);
        if starts_with(slice_subrange(s, i, n), pattern) {
            assert(occurs_at(s@, pattern@, i as int));
            return true;
        }
        if i == n {
            return false;
        }
        i = i + 1;
    }
    false
}

/// Tells whether `c` occurs in `s`.
pub fn has_char(s: &[char], c: char) -> (r: bool)
    ensures
        r == s@.contains(c),
{
    let i: usize = index_of(s, c);
    proof {
        lemma_first_of(s@, c);
        if s@.contains(c) {
            let k = choose|k: int| 0 <= k < s@.len() && s@[k] == c;
            assert(k >= i);
        }
    }
    i < s.len()
}

/// The stretches of `s` between occurrences of `c`.
pub fn split_at_each(s: &[char], c: char) -> (r: Vec<&[char]>)
    ensures
        views(r@) == split(s@, c),
{
    let mut r: Vec<&[char]> = Vec::new();
    let n: usize = s.len();
    let mut from: usize = 0;
    assert(s@.skip(0) == s@);
    assert(views(r@) =~= seq![]);
    loop
        invariant
            n == s@.len(),
            from <= n,
            split(s@, c) == views(r@) + split(s@.skip(from as int), c),
        decreases n - from,
    {
        let rest = slice_subrange(s, from, n);
        assert(rest@ == s@.skip(from as int));
        let i: usize = index_of(rest, c);
        let ghost done = r@;
        if i == rest.len() {
            r.push(rest);
            assert(views(r@) =~= views(done) + seq![rest@]);
            return r;
        }
        let part = slice_subrange(rest, 0, i);
        assert(part@ == rest@.take(i as int));
        r.push(part);
        assert(rest@.skip(i + 1) == s@.skip(from + i + 1));
        assert(views(r@) =~= views(done) + seq![part@]);
        assert(views(r@) + split(rest@.skip(i + 1), c) =~= views(done) + (seq![part@] + split(
            rest@.skip(i + 1),
            c,
        )));
        from = from + i + 1;
    }
}

/// The lines of a text.
pub fn lines_of(s: &[char]) -> (r: Vec<&[char]>)
    ensures
        views(r@) == lines(s@),
{
    let mut r: Vec<&[char]> = Vec::new();
    let n: usize = s.len();
    let mut from: usize = 0;
    assert(s@.skip(0) == s@);
    assert(views(r@) =~= seq![]);
    while from < n
        invariant
            n == s@.len(),
            from <= n,
            lines(s@) == views(r@) + lines(s@.skip(from as int)),
        decreases n - from,
    {
        let rest = slice_subrange(s, from, n);
        assert(rest@ == s@.skip(from as int));
        let i: usize = index_of(rest, '\n');
        let ghost done = r@;
        if i == rest.len() {
            r.push(rest);
            assert(views(r@) =~= views(done) + seq![rest@]);
            return r;
        }
        let whole = slice_subrange(rest, 0, i);
        assert(whole@ == rest@.take(i as int));
        let line = if i > 0 && whole[i - 1] == '\r' {
            slice_subrange(whole, 0, i - 1)
        } else {
            whole
        };
        assert(line@ =~= strip_return(whole@));
        r.push(line);
        assert(rest@.skip(i + 1) == s@.skip(from + i + 1));
        assert(views(r@) =~= views(done) + seq![line@]);
        assert(views(r@) + lines(rest@.skip(i + 1)) =~= views(done) + (seq![line@] + lines(
            rest@.skip(i + 1),
        )));
        from = from + i + 1;
    }
    assert(views(r@) + lines(s@.skip(from as int)) =~= views(r@));
    r
}

/// The strings one after another with `separator` between neighbours.
pub fn joined(parts: &[String], separator: &str) -> (r: String)
    ensures
        r@ == join(texts(parts@), separator@),
{
    let mut r = String::new();
    let n: usize = parts.len();
    let ghost all = texts(parts@);
    assert(all.take(0) =~= seq![]);
    let mut i: usize = 0;
    while i < n
        invariant
            n == parts@.len(),
            i <= n,
            all == texts(parts@),
            r@ == join(all.take(i as int), separator@),
        decreases n - i,
    {
        let ghost next = all.take(i + 1);
        assert(next.drop_last() =~= all.take(i as int));
        if i > 0 {
            r.append(separator);
        }
        r.append(parts[i].as_str());
        i = i + 1;
    }
    assert(all.take(n as int) =~= all);
    r
}

} // verus!
