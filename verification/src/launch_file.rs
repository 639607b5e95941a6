//! The copy of a .rdp file that is made for one launch.
use vstd::prelude::*;
use vstd::string::StringExecFns;

use crate::decode::{decodable, file_text, holds_text, read_rdp_file};
use crate::rdp::{info_host, info_port, info_username, rdp_host, setting, settings};
use crate::text::{
    chars_of, join, joined, lemma_lines_without_feed, lemma_trim_keeps_prefix, lines, lines_of,
    lines_undo_join, starts_with, string_of, texts, trim, trimmed, views, without_blank_end,
};

verus! {

/// The trimmed line begins with `key`.
pub open spec fn sets(line: Seq<char>, key: Seq<char>) -> bool {
    key.is_prefix_of(trimmed(line))
}

/// The line that selects monitors.
pub open spec fn selection_line(selected: Seq<char>) -> Seq<char> {
    "selectedmonitors:s:"@ + selected
}

/// The line that a line of the file becomes.
pub open spec fn rewritten(line: Seq<char>, selected: Seq<char>) -> Seq<char> {
    if sets(line, "selectedmonitors:"@) {
        selection_line(selected)
    } else if sets(line, "use multimon:"@) {
        "use multimon:i:1"@
    } else if sets(line, "screen mode id:"@) {
        "screen mode id:i:2"@
    } else {
        line
    }
}

/// Some line sets `key`.
pub open spec fn any_sets(all: Seq<Seq<char>>, key: Seq<char>) -> bool {
    exists|i: int| 0 <= i < all.len() && #[trigger] sets(all[i], key)
}

/// `added` as the only line, or no line where some line of `all` sets `key` already.
pub open spec fn unless_set(all: Seq<Seq<char>>, key: Seq<char>, added: Seq<char>) -> Seq<
    Seq<char>,
> {
    if any_sets(all, key) {
        seq![]
    } else {
        seq![added]
    }
}

/// The lines of the copy: each line of the file rewritten, and behind them the settings that the
/// file lacks.
pub open spec fn launch_lines(all: Seq<Seq<char>>, selected: Seq<char>) -> Seq<Seq<char>> {
    all.map_values(|line: Seq<char>| rewritten(line, selected)) + unless_set(
        all,
        "use multimon:"@,
        "use multimon:i:1"@,
    ) + unless_set(all, "screen mode id:"@, "screen mode id:i:2"@) + unless_set(
        all,
        "selectedmonitors:"@,
        selection_line(selected),
    )
}

/// The text of the copy.
pub open spec fn launch_text(content: Seq<char>, selected: Seq<char>) -> Seq<char> {
    join(launch_lines(lines(content), selected), "\r\n"@)
}

/// A file to be written: its name, which stands beside the file that it is made from, and its
/// text.
pub struct LaunchFile {
    pub file_name: String,
    pub content: String,
}

/// The name of the copy of a file whose name without extension is `stem`.
pub open spec fn launch_name(stem: Seq<char>) -> Seq<char> {
    stem + "_launch.rdp"@
}

/// The file is the copy of a file with the given name and text.
pub open spec fn is_launch_file(
    file: LaunchFile,
    stem: Seq<char>,
    content: Seq<char>,
    selected: Seq<char>,
) -> bool {
    file.file_name@ == launch_name(stem) && file.content@ == launch_text(content, selected)
}

fn line_sets(line: &[char], key: &str) -> (r: bool)
    ensures
        r == sets(line@, key@),
{
    starts_with(trim(line), chars_of(key).as_slice())
}

fn selection(selected: &str) -> (r: String)
    ensures
        r@ == selection_line(selected@),
{
    let mut r = "selectedmonitors:s:".to_string();
    r.append(selected);
    r
}

/// Tells whether some line sets `key`.
fn any_line_sets(all: &Vec<&[char]>, key: &str) -> (r: bool)
    ensures
        r == any_sets(views(all@), key@),
{
    let n: usize = all.len();
    let mut i: usize = 0;
    assert(views(all@).len() == n);
    while i < n
        invariant
            n == all@.len(),
            n == views(all@).len(),
            i <= n,
            forall|k: int| 0 <= k < i ==> !#[trigger] sets(views(all@)[k], key@),
        decreases n - i,
    {
        assert(views(all@)[i as int] == all@[i as int]@);
        if line_sets(all[i], key) {
            assert(sets(views(all@)[i as int], key@));
            return true;
        }
        i = i + 1;
    }
    false
}

fn rewrite(line: &[char], selected: &str) -> (r: String)
    ensures
        r@ == rewritten(line@, selected@),
{
    if line_sets(line, "selectedmonitors:") {
        selection(selected)
    } else if line_sets(line, "use multimon:") {
        "use multimon:i:1".to_string()
    } else if line_sets(line, "screen mode id:") {
        "screen mode id:i:2".to_string()
    } else {
        string_of(line)
    }
}

/// Rewrites the text of a .rdp file so that it opens on the selected monitors.
pub fn rewrite_for_launch(content: &str, selected: &str) -> (r: String)
    ensures
        r@ == launch_text(content@, selected@),
        r@ == join(launch_lines(lines(content@), selected@), "\r\n"@),
{
    let chars = chars_of(content);
    let all = lines_of(chars.as_slice());
    let ghost spec_lines = lines(content@);
    let ghost change = |line: Seq<char>| rewritten(line, selected@);
    let mut out: Vec<String> = Vec::new();
    let n: usize = all.len();
    let mut i: usize = 0;
    assert(views(all@).len() == n);
    while i < n
        invariant
            n == all@.len(),
            n == spec_lines.len(),
            views(all@) == spec_lines,
            i <= n,
            out@.len() == i,
            forall|k: int|
                0 <= k < i ==> (#[trigger] out@[k])@ == rewritten(spec_lines[k], selected@),
        decreases n - i,
    {
        assert(views(all@)[i as int] == all@[i as int]@);
        out.push(rewrite(all[i], selected));
        i = i + 1;
    }
    assert(texts(out@) =~= spec_lines.map_values(change));
    let ghost base = out@;
    if !any_line_sets(&all, "use multimon:") {
        out.push("use multimon:i:1".to_string());
    }
    let ghost multimon = unless_set(spec_lines, "use multimon:"@, "use multimon:i:1"@);
    assert(texts(out@) =~= texts(base) + multimon);
    let ghost two = out@;
    if !any_line_sets(&all, "screen mode id:") {
        out.push("screen mode id:i:2".to_string());
    }
    let ghost screen = unless_set(spec_lines, "screen mode id:"@, "screen mode id:i:2"@);
    assert(texts(out@) =~= texts(two) + screen);
    let ghost three = out@;
    if !any_line_sets(&all, "selectedmonitors:") {
        out.push(selection(selected));
    }
    assert(texts(out@) =~= texts(three) + unless_set(
        spec_lines,
        "selectedmonitors:"@,
        selection_line(selected@),
    ));
    joined(out.as_slice(), "\r\n")
}

/// The name of the copy of a file whose name without extension is `stem`.
pub fn launch_file_name(stem: &str) -> (r: String)
    ensures
        r@ == launch_name(stem@),
        r@ == stem@ + "_launch.rdp"@,
{
    let mut r = stem.to_string();
    r.append("_launch.rdp");
    r
}

/// Makes the copy of the .rdp file at `rdp_path` that opens on the selected monitors. `stem` is
/// the name of that file without its extension; the copy belongs beside the file.
pub fn prepare_rdp_for_launch(
    rdp_path: &str,
    raw: Result<Vec<u8>, String>,
    stem: &str,
    selected_monitors: &str,
) -> (r: Result<LaunchFile, String>)
    requires
        decodable(raw),
    ensures
        match file_text(rdp_path@, raw) {
            Ok(content) => r matches Ok(file) && is_launch_file(
                file,
                stem@,
                content,
                selected_monitors@,
            ),
            Err(fault) => r matches Err(e) && e@ == fault,
        },
        raw matches Ok(raw) ==> forall|content: Seq<char>| #[trigger]
            holds_text(raw@, content) ==> (r matches Ok(file) && is_launch_file(
                file,
                stem@,
                content,
                selected_monitors@,
            )),
        file_text(rdp_path@, raw) matches Ok(content) ==> (r matches Ok(file) && {
                &&& file.file_name@ == stem@ + "_launch.rdp"@
                &&& file.content@ == join(
                    launch_lines(lines(content), selected_monitors@),
                    "\r\n"@,
                )
                &&& forall|i: int|
                    0 <= i < lines(content).len() && !"selectedmonitors:"@.is_prefix_of(
                        trimmed(#[trigger] lines(content)[i]),
                    ) && !"use multimon:"@.is_prefix_of(trimmed(lines(content)[i]))
                        && !"screen mode id:"@.is_prefix_of(trimmed(lines(content)[i]))
                        && !selected_monitors@.contains('\n') && (i + 1 < lines(content).len()
                        || lines(content)[i].len() > 0) ==> i < lines(file.content@).len() && lines(
                        file.content@,
                    )[i] == lines(content)[i]
                &&& !selected_monitors@.contains('\n') ==> {
                    &&& rdp_host(rdp_path@, file.content@) == rdp_host(rdp_path@, content)
                    &&& info_host(file.content@) == info_host(content)
                    &&& info_port(file.content@) == info_port(content)
                    &&& info_username(file.content@) == info_username(content)
                    &&& forall|i: int|
                        0 <= i < lines(file.content@).len() && "selectedmonitors:"@.is_prefix_of(
                            trimmed(#[trigger] lines(file.content@)[i]),
                        ) ==> lines(file.content@)[i] == "selectedmonitors:s:"@ + selected_monitors@
                    &&& exists|i: int|
                        0 <= i < lines(file.content@).len() && #[trigger] lines(file.content@)[i]
                            == "selectedmonitors:s:"@ + selected_monitors@
                }
        }),
{
    match read_rdp_file(rdp_path, raw) {
        Ok(content) => {
            proof {
                if !selected_monitors@.contains('\n') {
                    copy_reads_as_the_file(rdp_path@, content@, selected_monitors@);
                }
            }
            Ok(
                LaunchFile {
                    file_name: launch_file_name(stem),
                    content: rewrite_for_launch(content.as_str(), selected_monitors),
                },
            )
        },
        Err(e) => Err(e),
    }
}

/// The two texts differ within the length of both, so that no text begins with both.
pub open spec fn part_ways(a: Seq<char>, b: Seq<char>) -> bool {
    exists|i: int| 0 <= i < a.len() && 0 <= i < b.len() && #[trigger] a[i] != b[i]
}

proof fn lemma_not_both(s: Seq<char>, a: Seq<char>, b: Seq<char>)
    requires
        part_ways(a, b),
        a.is_prefix_of(s),
    ensures
        !b.is_prefix_of(s),
{
    let i = choose|i: int| 0 <= i < a.len() && 0 <= i < b.len() && #[trigger] a[i] != b[i];
    assert(s[i] == a[i]);
    if b.is_prefix_of(s) {
        assert(s[i] == b[i]);
    }
}

/// What is known of the literals: each line that is written sets its key, holds no line feed, and
/// the three keys exclude one another.
proof fn lemma_written_lines(selected: Seq<char>)
    ensures
        sets(selection_line(selected), "selectedmonitors:"@),
        sets("use multimon:i:1"@, "use multimon:"@),
        sets("screen mode id:i:2"@, "screen mode id:"@),
        part_ways("selectedmonitors:"@, "use multimon:"@),
        part_ways("selectedmonitors:"@, "screen mode id:"@),
        part_ways("use multimon:"@, "screen mode id:"@),
        !"use multimon:i:1"@.contains('\n'),
        !"screen mode id:i:2"@.contains('\n'),
        !selected.contains('\n') ==> !selection_line(selected).contains('\n'),
        selection_line(selected).len() > 0,
        "use multimon:i:1"@.len() > 0,
        "screen mode id:i:2"@.len() > 0,
{
    reveal_strlit("selectedmonitors:");
    reveal_strlit("selectedmonitors:s:");
    reveal_strlit("use multimon:");
    reveal_strlit("use multimon:i:1");
    reveal_strlit("screen mode id:");
    reveal_strlit("screen mode id:i:2");
    let line = selection_line(selected);
    lemma_trim_keeps_prefix(line, "selectedmonitors:"@);
    lemma_trim_keeps_prefix("use multimon:i:1"@, "use multimon:"@);
    lemma_trim_keeps_prefix("screen mode id:i:2"@, "screen mode id:"@);
    assert("selectedmonitors:"@[0] != "use multimon:"@[0]);
    assert("selectedmonitors:"@[1] != "screen mode id:"@[1]);
    assert("use multimon:"@[0] != "screen mode id:"@[0]);
    if !selected.contains('\n') {
        let head = "selectedmonitors:s:"@;
        assert forall|k: int| 0 <= k < line.len() implies line[k] != '\n' by {
            if k >= head.len() {
                assert(line[k] == selected[k - head.len()]);
            }
        }
    }
}

/// What a written line sets, and what not.
proof fn lemma_rewritten_sets(line: Seq<char>, selected: Seq<char>)
    ensures
        sets(rewritten(line, selected), "selectedmonitors:"@) == sets(line, "selectedmonitors:"@),
        sets(rewritten(line, selected), "use multimon:"@) == sets(line, "use multimon:"@),
        sets(rewritten(line, selected), "screen mode id:"@) == sets(line, "screen mode id:"@),
{
    lemma_written_lines(selected);
    let a = "selectedmonitors:"@;
    let b = "use multimon:"@;
    let c = "screen mode id:"@;
    if sets(line, a) {
        lemma_not_both(trimmed(line), a, b);
        lemma_not_both(trimmed(line), a, c);
        lemma_not_both(trimmed(selection_line(selected)), a, b);
        lemma_not_both(trimmed(selection_line(selected)), a, c);
    } else if sets(line, b) {
        lemma_not_both(trimmed(line), b, c);
        if sets("use multimon:i:1"@, a) {
            lemma_not_both(trimmed("use multimon:i:1"@), a, b);
        }
        lemma_not_both(trimmed("use multimon:i:1"@), b, c);
    } else if sets(line, c) {
        if sets("screen mode id:i:2"@, a) {
            lemma_not_both(trimmed("screen mode id:i:2"@), a, c);
        }
        if sets("screen mode id:i:2"@, b) {
            lemma_not_both(trimmed("screen mode id:i:2"@), b, c);
        }
    }
}

/// Rewriting a line again is like rewriting it once.
proof fn lemma_rewritten_twice(line: Seq<char>, first: Seq<char>, second: Seq<char>)
    ensures
        rewritten(rewritten(line, first), second) == rewritten(line, second),
{
    lemma_rewritten_sets(line, first);
}

/// The lines of the copy, taken apart: rewritten lines of the file, then lines that were added.
proof fn lemma_launch_lines(all: Seq<Seq<char>>, selected: Seq<char>)
    ensures
        ({
            let out = launch_lines(all, selected);
            let n = all.len() as int;
            &&& out.len() >= n
            &&& out.len() > 0
            &&& forall|i: int| 0 <= i < n ==> #[trigger] out[i] == rewritten(all[i], selected)
            &&& forall|i: int|
                n <= i < out.len() ==> {
                    ||| #[trigger] out[i] == "use multimon:i:1"@
                    ||| out[i] == "screen mode id:i:2"@
                    ||| out[i] == selection_line(selected)
                }
            &&& any_sets(out, "selectedmonitors:"@)
            &&& any_sets(out, "use multimon:"@)
            &&& any_sets(out, "screen mode id:"@)
        }),
{
    lemma_written_lines(selected);
    let out = launch_lines(all, selected);
    let n = all.len() as int;
    let base = all.map_values(|line: Seq<char>| rewritten(line, selected));
    let m = unless_set(all, "use multimon:"@, "use multimon:i:1"@);
    let s = unless_set(all, "screen mode id:"@, "screen mode id:i:2"@);
    let x = unless_set(all, "selectedmonitors:"@, selection_line(selected));
    assert(out == base + m + s + x);
    assert forall|i: int| 0 <= i < n implies #[trigger] out[i] == rewritten(all[i], selected) by {
        assert(out[i] == base[i]);
    }
    assert forall|key: Seq<char>|
        (key == "use multimon:"@ || key == "screen mode id:"@ || key == "selectedmonitors:"@)
            && #[trigger] any_sets(all, key) implies any_sets(out, key) by {
        let i = choose|i: int| 0 <= i < all.len() && #[trigger] sets(all[i], key);
        lemma_rewritten_sets(all[i], selected);
        assert(sets(out[i], key));
    }
    if !any_sets(all, "use multimon:"@) {
        assert(out[n] == m[0]);
        assert(sets(out[n], "use multimon:"@));
    }
    if !any_sets(all, "screen mode id:"@) {
        let k = n + m.len();
        assert(out[k] == s[0]);
        assert(sets(out[k], "screen mode id:"@));
    }
    if !any_sets(all, "selectedmonitors:"@) {
        let k = n + m.len() + s.len();
        assert(out[k] == x[0]);
        assert(sets(out[k], "selectedmonitors:"@));
    }
}

/// The copy states each of the three settings, and wherever it states one, it states the value
/// for the launch.
pub proof fn launch_states_its_settings(all: Seq<Seq<char>>, selected: Seq<char>)
    ensures
        any_sets(launch_lines(all, selected), "selectedmonitors:"@),
        any_sets(launch_lines(all, selected), "use multimon:"@),
        any_sets(launch_lines(all, selected), "screen mode id:"@),
        forall|i: int|
            0 <= i < launch_lines(all, selected).len() ==> {
                let line = #[trigger] launch_lines(all, selected)[i];
                &&& sets(line, "selectedmonitors:"@) ==> line == selection_line(selected)
                &&& sets(line, "use multimon:"@) ==> line == "use multimon:i:1"@
                &&& sets(line, "screen mode id:"@) ==> line == "screen mode id:i:2"@
            },
{
    lemma_launch_lines(all, selected);
    let out = launch_lines(all, selected);
    assert forall|i: int| 0 <= i < out.len() implies {
        let line = #[trigger] out[i];
        &&& sets(line, "selectedmonitors:"@) ==> line == selection_line(selected)
        &&& sets(line, "use multimon:"@) ==> line == "use multimon:i:1"@
        &&& sets(line, "screen mode id:"@) ==> line == "screen mode id:i:2"@
    } by {
        let line = out[i];
        let a = "selectedmonitors:"@;
        let b = "use multimon:"@;
        let c = "screen mode id:"@;
        lemma_written_lines(selected);
        if sets(line, a) {
            lemma_not_both(trimmed(line), a, b);
            lemma_not_both(trimmed(line), a, c);
        }
        if sets(line, b) {
            lemma_not_both(trimmed(line), b, c);
        }
        if i < all.len() {
            lemma_rewritten_sets(all[i], selected);
        }
    }
}

/// Every line of the file that states none of the three settings stands in the copy as it is, in
/// its place.
pub proof fn launch_keeps_other_lines(all: Seq<Seq<char>>, selected: Seq<char>, i: int)
    requires
        0 <= i < all.len(),
        !sets(all[i], "selectedmonitors:"@),
        !sets(all[i], "use multimon:"@),
        !sets(all[i], "screen mode id:"@),
    ensures
        i < launch_lines(all, selected).len(),
        launch_lines(all, selected)[i] == all[i],
{
    lemma_launch_lines(all, selected);
}

/// The lines that are read from the copy are those that it was made of, but for a last one that is
/// empty.
pub proof fn launch_text_reads_back(content: Seq<char>, selected: Seq<char>)
    requires
        !selected.contains('\n'),
    ensures
        lines(launch_text(content, selected)) == without_blank_end(
            launch_lines(lines(content), selected),
        ),
{
    reveal_strlit("\r\n");
    assert("\r\n"@ =~= seq!['\r', '\n']);
    let all = lines(content);
    let out = launch_lines(all, selected);
    lemma_launch_lines(all, selected);
    lemma_written_lines(selected);
    lemma_lines_without_feed(content);
    assert forall|i: int| 0 <= i < out.len() implies !(#[trigger] out[i]).contains('\n') by {
        if i < all.len() {
            assert(!all[i].contains('\n'));
        }
    }
    lines_undo_join(out);
}

/// Line by line, the copy is the file: a line that states one of the three settings, in whatever
/// white space, is replaced by that setting for the launch, and every other line stands as it is.
/// Behind these stand those of the three settings that no line of the file states.
pub proof fn copy_is_the_file_line_by_line(all: Seq<Seq<char>>, selected: Seq<char>)
    ensures
        ({
            let out = launch_lines(all, selected);
            let n = all.len() as int;
            let selects = exists|i: int|
                0 <= i < n && "selectedmonitors:"@.is_prefix_of(trimmed(#[trigger] all[i]));
            let spans = exists|i: int|
                0 <= i < n && "use multimon:"@.is_prefix_of(trimmed(#[trigger] all[i]));
            let fills = exists|i: int|
                0 <= i < n && "screen mode id:"@.is_prefix_of(trimmed(#[trigger] all[i]));
            &&& out.len() >= n
            &&& forall|i: int|
                0 <= i < n ==> #[trigger] out[i] == (if "selectedmonitors:"@.is_prefix_of(
                    trimmed(all[i]),
                ) {
                    "selectedmonitors:s:"@ + selected
                } else if "use multimon:"@.is_prefix_of(trimmed(all[i])) {
                    "use multimon:i:1"@
                } else if "screen mode id:"@.is_prefix_of(trimmed(all[i])) {
                    "screen mode id:i:2"@
                } else {
                    all[i]
                })
            &&& out.skip(n) == (if spans {
                Seq::<Seq<char>>::empty()
            } else {
                seq!["use multimon:i:1"@]
            }) + (if fills {
                Seq::<Seq<char>>::empty()
            } else {
                seq!["screen mode id:i:2"@]
            }) + (if selects {
                Seq::<Seq<char>>::empty()
            } else {
                seq!["selectedmonitors:s:"@ + selected]
            })
        }),
{
    let out = launch_lines(all, selected);
    let n = all.len() as int;
    let a = "selectedmonitors:"@;
    let b = "use multimon:"@;
    let c = "screen mode id:"@;
    assert forall|key: Seq<char>| #[trigger] any_sets(all, key) == exists|i: int|
        0 <= i < n && key.is_prefix_of(trimmed(#[trigger] all[i])) by {
        if any_sets(all, key) {
            let i = choose|i: int| 0 <= i < all.len() && #[trigger] sets(all[i], key);
            assert(key.is_prefix_of(trimmed(all[i])));
        }
        if exists|i: int| 0 <= i < n && key.is_prefix_of(trimmed(#[trigger] all[i])) {
            let i = choose|i: int| 0 <= i < n && key.is_prefix_of(trimmed(#[trigger] all[i]));
            assert(sets(all[i], key));
        }
    }
    assert(any_sets(all, a) || !any_sets(all, a));
    assert(any_sets(all, b) || !any_sets(all, b));
    assert(any_sets(all, c) || !any_sets(all, c));
    let base = all.map_values(|line: Seq<char>| rewritten(line, selected));
    assert forall|i: int| 0 <= i < n implies #[trigger] out[i] == rewritten(all[i], selected) by {
        assert(out[i] == base[i]);
    }
    let added = unless_set(all, b, "use multimon:i:1"@) + unless_set(all, c, "screen mode id:i:2"@)
        + unless_set(all, a, selection_line(selected));
    assert(out =~= base + added);
    assert(out.skip(n) =~= added);
}

/// What is read from the copy of a file: the same host, port and user; the selected monitors
/// wherever monitors are selected, and at least once; and every line of the file that states none
/// of the three settings, at its place, but for an empty line at the end.
pub proof fn copy_reads_as_the_file(path: Seq<char>, content: Seq<char>, selected: Seq<char>)
    requires
        !selected.contains('\n'),
    ensures
        ({
            let copy = lines(launch_text(content, selected));
            let all = lines(content);
            &&& forall|i: int|
                0 <= i < all.len() && !"selectedmonitors:"@.is_prefix_of(trimmed(#[trigger] all[i]))
                    && !"use multimon:"@.is_prefix_of(trimmed(all[i])) && !"screen mode id:"@.is_prefix_of(
                    trimmed(all[i])) && (i + 1 < all.len() || all[i].len() > 0) ==> i < copy.len()
                    && copy[i] == all[i]
            &&& forall|i: int|
                0 <= i < copy.len() && "selectedmonitors:"@.is_prefix_of(trimmed(#[trigger] copy[i]))
                    ==> copy[i] == "selectedmonitors:s:"@ + selected
            &&& exists|i: int|
                0 <= i < copy.len() && #[trigger] copy[i] == "selectedmonitors:s:"@ + selected
        }),
        rdp_host(path, launch_text(content, selected)) == rdp_host(path, content),
        info_host(launch_text(content, selected)) == info_host(content),
        info_port(launch_text(content, selected)) == info_port(content),
        info_username(launch_text(content, selected)) == info_username(content),
{
    launch_keeps_connection(path, content, selected);
    launch_text_reads_back(content, selected);
    let all = lines(content);
    let out = launch_lines(all, selected);
    let copy = lines(launch_text(content, selected));
    lemma_launch_lines(all, selected);
    launch_states_its_settings(all, selected);
    lemma_written_lines(selected);
    assert(copy == without_blank_end(out));
    assert forall|i: int|
        0 <= i < all.len() && !"selectedmonitors:"@.is_prefix_of(trimmed(#[trigger] all[i]))
            && !"use multimon:"@.is_prefix_of(trimmed(all[i])) && !"screen mode id:"@.is_prefix_of(
            trimmed(all[i]),
        ) && (i + 1 < all.len() || all[i].len() > 0) implies i < copy.len() && copy[i] == all[i] by {
        assert(out[i] == rewritten(all[i], selected));
    }
    assert forall|i: int|
        0 <= i < copy.len() && "selectedmonitors:"@.is_prefix_of(trimmed(#[trigger] copy[i])) implies copy[i]
        == "selectedmonitors:s:"@ + selected by {
        assert(copy[i] == out[i]);
        assert(sets(out[i], "selectedmonitors:"@));
    }
    let k = choose|k: int| 0 <= k < out.len() && #[trigger] sets(out[k], "selectedmonitors:"@);
    assert(out[k] == selection_line(selected));
    assert(copy[k] == out[k]);
}

/// The file made for a launch is named after the original and holds a copy of all of it: the lines
/// of the whole text, however long it is, each as `copy_is_the_file_line_by_line` says. Its host,
/// port and user are those of the original, and every line that states none of the three settings
/// stands at its place.
pub proof fn launch_file_holds_the_whole_file(
    file: LaunchFile,
    path: Seq<char>,
    stem: Seq<char>,
    content: Seq<char>,
    selected: Seq<char>,
)
    requires
        is_launch_file(file, stem, content, selected),
    ensures
        file.file_name@ == stem + "_launch.rdp"@,
        file.content@ == join(launch_lines(lines(content), selected), "\r\n"@),
        !selected.contains('\n') ==> {
            let copy = lines(file.content@);
            let all = lines(content);
            &&& copy.len() + 1 >= all.len()
            &&& forall|i: int|
                0 <= i < all.len() && !"selectedmonitors:"@.is_prefix_of(trimmed(#[trigger] all[i]))
                    && !"use multimon:"@.is_prefix_of(trimmed(all[i]))
                    && !"screen mode id:"@.is_prefix_of(trimmed(all[i])) && (i + 1 < all.len()
                    || all[i].len() > 0) ==> i < copy.len() && copy[i] == all[i]
            &&& rdp_host(path, file.content@) == rdp_host(path, content)
            &&& info_host(file.content@) == info_host(content)
            &&& info_port(file.content@) == info_port(content)
            &&& info_username(file.content@) == info_username(content)
        },
{
    if !selected.contains('\n') {
        copy_reads_as_the_file(path, content, selected);
        launch_text_reads_back(content, selected);
        lemma_launch_lines(lines(content), selected);
    }
}

proof fn lemma_same_settings(a: Seq<Seq<char>>, b: Seq<Seq<char>>, prefix: Seq<char>)
    requires
        a.len() <= b.len(),
        forall|i: int|
            0 <= i < a.len() ==> setting(#[trigger] a[i], prefix) == setting(b[i], prefix),
        forall|i: int| a.len() <= i < b.len() ==> setting(#[trigger] b[i], prefix) is None,
    ensures
        a.filter_map(|line: Seq<char>| setting(line, prefix)) == b.filter_map(
            |line: Seq<char>| setting(line, prefix),
        ),
    decreases b.len(),
{
    let f = |line: Seq<char>| setting(line, prefix);
    if b.len() > a.len() {
        let front = b.drop_last();
        assert forall|i: int| a.len() <= i < front.len() implies setting(
            #[trigger] front[i],
            prefix,
        ) is None by {
            assert(front[i] == b[i]);
        }
        assert forall|i: int| 0 <= i < a.len() implies setting(#[trigger] a[i], prefix) == setting(
            front[i],
            prefix,
        ) by {
            assert(front[i] == b[i]);
        }
        lemma_same_settings(a, front, prefix);
        assert(setting(b[b.len() - 1], prefix) is None);
    } else if a.len() > 0 {
        let x = a.drop_last();
        let y = b.drop_last();
        assert forall|i: int| 0 <= i < x.len() implies setting(#[trigger] x[i], prefix) == setting(
            y[i],
            prefix,
        ) by {
            assert(x[i] == a[i] && y[i] == b[i]);
        }
        lemma_same_settings(x, y, prefix);
        assert(setting(a[a.len() - 1], prefix) == setting(b[b.len() - 1], prefix));
    }
}

/// Every other setting is read from the copy as it is read from the file.
pub proof fn launch_keeps_other_settings(
    content: Seq<char>,
    selected: Seq<char>,
    prefix: Seq<char>,
)
    requires
        !selected.contains('\n'),
        part_ways("selectedmonitors:"@, prefix),
        part_ways("use multimon:"@, prefix),
        part_ways("screen mode id:"@, prefix),
    ensures
        settings(launch_text(content, selected), prefix) == settings(content, prefix),
{
    let all = lines(content);
    let out = launch_lines(all, selected);
    lemma_launch_lines(all, selected);
    lemma_written_lines(selected);
    launch_text_reads_back(content, selected);
    assert forall|line: Seq<char>| #[trigger] sets(line, "selectedmonitors:"@) implies setting(
        line,
        prefix,
    ) is None by {
        lemma_not_both(trimmed(line), "selectedmonitors:"@, prefix);
    }
    assert forall|line: Seq<char>| #[trigger] sets(line, "use multimon:"@) implies setting(
        line,
        prefix,
    ) is None by {
        lemma_not_both(trimmed(line), "use multimon:"@, prefix);
    }
    assert forall|line: Seq<char>| #[trigger] sets(line, "screen mode id:"@) implies setting(
        line,
        prefix,
    ) is None by {
        lemma_not_both(trimmed(line), "screen mode id:"@, prefix);
    }
    assert forall|i: int| 0 <= i < all.len() implies setting(#[trigger] all[i], prefix) == setting(
        out[i],
        prefix,
    ) by {
        assert(out[i] == rewritten(all[i], selected));
    }
    lemma_same_settings(all, out, prefix);
    let again = without_blank_end(out);
    if out.last().len() == 0 {
        let n = out.len() - 1;
        assert(trimmed(out[n]) =~= out[n]);
        assert(prefix.len() > 0);
        assert(setting(out[n], prefix) is None);
        lemma_same_settings(again, out, prefix);
    }
}

/// The copy connects to the host, the port and the user of the file.
pub proof fn launch_keeps_connection(path: Seq<char>, content: Seq<char>, selected: Seq<char>)
    requires
        !selected.contains('\n'),
    ensures
        rdp_host(path, launch_text(content, selected)) == rdp_host(path, content),
        info_host(launch_text(content, selected)) == info_host(content),
        info_port(launch_text(content, selected)) == info_port(content),
        info_username(launch_text(content, selected)) == info_username(content),
{
    reveal_strlit("selectedmonitors:");
    reveal_strlit("use multimon:");
    reveal_strlit("screen mode id:");
    reveal_strlit("full address:s:");
    reveal_strlit("username:s:");
    let address = "full address:s:"@;
    let user = "username:s:"@;
    assert("selectedmonitors:"@[0] != address[0]);
    assert("use multimon:"@[0] != address[0]);
    assert("screen mode id:"@[0] != address[0]);
    assert("selectedmonitors:"@[0] != user[0]);
    assert("use multimon:"@[3] != user[3]);
    assert("screen mode id:"@[0] != user[0]);
    launch_keeps_other_settings(content, selected, address);
    launch_keeps_other_settings(content, selected, user);
}

/// A copy made from a copy is the copy made from the file for the newer selection, but for an
/// empty line at the end.
pub proof fn launching_a_copy_again(content: Seq<char>, first: Seq<char>, second: Seq<char>)
    requires
        !first.contains('\n'),
    ensures
        launch_lines(lines(launch_text(content, first)), second) == without_blank_end(
            launch_lines(lines(content), second),
        ),
{
    let all = lines(content);
    let out = launch_lines(all, first);
    let wanted = launch_lines(all, second);
    lemma_launch_lines(all, first);
    lemma_launch_lines(all, second);
    launch_text_reads_back(content, first);
    lemma_written_lines(first);
    lemma_written_lines(second);
    let again = without_blank_end(out);
    let n = again.len() as int;
    assert forall|key: Seq<char>|
        (key == "use multimon:"@ || key == "screen mode id:"@ || key == "selectedmonitors:"@)
            implies #[trigger] any_sets(again, key) by {
        let i = choose|i: int| 0 <= i < out.len() && #[trigger] sets(out[i], key);
        if i >= n {
            assert(trimmed(out[i]) =~= out[i]);
            assert(key.len() > 0) by {
                reveal_strlit("selectedmonitors:");
                reveal_strlit("use multimon:");
                reveal_strlit("screen mode id:");
            }
        }
        assert(again[i] == out[i]);
        assert(sets(again[i], key));
    }
    let relaunched = launch_lines(again, second);
    assert(relaunched =~= again.map_values(|line: Seq<char>| rewritten(line, second)));
    assert(out.len() == wanted.len());
    assert forall|i: int| 0 <= i < out.len() implies rewritten(#[trigger] out[i], second)
        == wanted[i] by {
        if i < all.len() {
            lemma_rewritten_twice(all[i], first, second);
        } else {
            lemma_added_line(all, first, second, i);
        }
    }
    assert forall|i: int| 0 <= i < out.len() implies ((#[trigger] out[i]).len() == 0) == (
    wanted[i].len() == 0) by {
        if i < all.len() {
            lemma_blank_stays(all[i], first);
            lemma_blank_stays(all[i], second);
        } else {
            assert(out[i].len() > 0);
            assert(wanted[i].len() > 0);
        }
    }
    assert(out[out.len() - 1].len() == 0 <==> wanted[out.len() - 1].len() == 0);
    assert(relaunched =~= without_blank_end(wanted));
}

proof fn lemma_blank_stays(line: Seq<char>, selected: Seq<char>)
    ensures
        rewritten(line, selected).len() == 0 <==> line.len() == 0,
{
    lemma_written_lines(selected);
    reveal_strlit("selectedmonitors:");
    reveal_strlit("use multimon:");
    reveal_strlit("screen mode id:");
    if line.len() == 0 {
        assert(trimmed(line) =~= line);
    }
}

proof fn lemma_added_line(all: Seq<Seq<char>>, first: Seq<char>, second: Seq<char>, i: int)
    requires
        all.len() <= i < launch_lines(all, first).len(),
    ensures
        rewritten(launch_lines(all, first)[i], second) == launch_lines(all, second)[i],
{
    lemma_written_lines(first);
    let a = "selectedmonitors:"@;
    let b = "use multimon:"@;
    let c = "screen mode id:"@;
    let m = unless_set(all, b, "use multimon:i:1"@);
    let s = unless_set(all, c, "screen mode id:i:2"@);
    let n = all.len() as int;
    let out = launch_lines(all, first);
    let wanted = launch_lines(all, second);
    if i < n + m.len() {
        assert(out[i] == m[0] && wanted[i] == m[0]);
        if sets(out[i], a) {
            lemma_not_both(trimmed(out[i]), a, b);
        }
    } else if i < n + m.len() + s.len() {
        assert(out[i] == s[0] && wanted[i] == s[0]);
        if sets(out[i], a) {
            lemma_not_both(trimmed(out[i]), a, c);
        }
        if sets(out[i], b) {
            lemma_not_both(trimmed(out[i]), b, c);
        }
    } else {
        assert(out[i] == selection_line(first));
        assert(wanted[i] == selection_line(second));
    }
}

/// The copy never has the name of the file that it is made from: the file is called as its stem,
/// or as its stem with a dot and an extension.
pub proof fn launch_name_differs(stem: Seq<char>, extension: Seq<char>)
    ensures
        launch_name(stem) != stem,
        launch_name(stem) != stem + "."@ + extension,
{
    reveal_strlit("_launch.rdp");
    reveal_strlit(".");
    let n = stem.len() as int;
    assert(launch_name(stem)[n] == '_');
    assert((stem + "."@ + extension)[n] == '.');
}

} // verus!
