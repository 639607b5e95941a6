//! Definitions for the monitors that are connected now.
use vstd::prelude::*;
use vstd::relations::sorted_by;
use vstd::seq_lib::lemma_sorted_unique;
use vstd::set_lib::{lemma_int_range, lemma_subset_equality, set_int_range};
use vstd::string::StringExecFns;

use crate::config::MonitorDef;
use crate::monitor::{exact_match_wins, same_place, same_screen, same_size, LiveMonitor};
use crate::number::{decimal, decimal_is_injective, write_decimal};
use crate::profile::{other_ids, resolution, resolved_key, resolved_keys};
use crate::table::Table;

verus! {

/// The monitor lies left of the other, or in the same column above it.
pub open spec fn precedes(a: LiveMonitor, b: LiveMonitor) -> bool {
    a.left < b.left || (a.left == b.left && a.top < b.top)
}

/// `s` with `m` put behind the last monitor that it does not precede.
pub open spec fn placed(s: Seq<LiveMonitor>, m: LiveMonitor) -> Seq<LiveMonitor>
    decreases s.len(),
{
    if s.len() > 0 && precedes(m, s.last()) {
        placed(s.drop_last(), m).push(s.last())
    } else {
        s.push(m)
    }
}

/// The monitors from left to right and, in a column, from top to bottom; those at one position
/// keep their order.
pub open spec fn by_position(live: Seq<LiveMonitor>) -> Seq<LiveMonitor>
    decreases live.len(),
{
    if live.len() == 0 {
        seq![]
    } else {
        placed(by_position(live.drop_last()), live.last())
    }
}

/// The key of the definition that is number `i` in order of position.
pub open spec fn detected_key(i: nat) -> Seq<char> {
    "mon-"@ + decimal(i)
}

/// Where monitor `i` of the monitors in order of position lies, in a word.
pub open spec fn position_label(sorted: Seq<LiveMonitor>, i: int) -> Seq<char> {
    let m = sorted[i];
    if m.left < 0 {
        "left"@
    } else if m.left == 0 && exists|j: int|
        0 <= j < sorted.len() && (#[trigger] sorted[j]).left > m.left {
        "center"@
    } else if i == 0 {
        "left"@
    } else if i == sorted.len() - 1 {
        "right"@
    } else {
        "center"@
    }
}

/// The name of monitor `i` of the monitors in order of position: where it lies and its resolution.
pub open spec fn detected_name(sorted: Seq<LiveMonitor>, i: int) -> Seq<char> {
    position_label(sorted, i) + " "@ + decimal(sorted[i].width as nat) + "x"@ + decimal(
        sorted[i].height as nat,
    )
}

/// The definition describes monitor `i` of the monitors in order of position.
pub open spec fn describes(def: MonitorDef, sorted: Seq<LiveMonitor>, i: int) -> bool {
    &&& def.name@ == detected_name(sorted, i)
    &&& same_place(def, sorted[i])
    &&& same_size(def, sorted[i])
}

/// The definitions are those of the monitors `sorted`: `mon-0`, `mon-1` and so on, and no others.
pub open spec fn are_definitions_of(
    defs: Map<Seq<char>, MonitorDef>,
    sorted: Seq<LiveMonitor>,
) -> bool {
    &&& forall|i: int|
        0 <= i < sorted.len() ==> defs.contains_key(#[trigger] detected_key(i as nat)) && describes(
            defs[detected_key(i as nat)],
            sorted,
            i,
        )
    &&& forall|key: Seq<char>| #[trigger]
        defs.contains_key(key) ==> exists|i: int|
            0 <= i < sorted.len() && key == #[trigger] detected_key(i as nat)
}

pub(crate) proof fn lemma_keys_differ(i: nat, j: nat)
    requires
        detected_key(i) == detected_key(j),
    ensures
        i == j,
{
    let p = "mon-"@;
    assert(decimal(i) =~= detected_key(i).skip(p.len() as int));
    assert(decimal(j) =~= detected_key(j).skip(p.len() as int));
    decimal_is_injective(i, j);
}

/// `placed` is an insertion behind every monitor that `m` does not precede.
proof fn lemma_placed(s: Seq<LiveMonitor>, m: LiveMonitor, at: int)
    requires
        0 <= at <= s.len(),
        forall|k: int| at <= k < s.len() ==> precedes(m, #[trigger] s[k]),
        at > 0 ==> !precedes(m, s[at - 1]),
    ensures
        placed(s, m) == s.insert(at, m),
    decreases s.len() - at,
{
    if at < s.len() {
        assert(precedes(m, s.last()));
        lemma_placed(s.drop_last(), m, at);
        assert(s.drop_last().insert(at, m).push(s.last()) =~= s.insert(at, m));
    } else {
        assert(s.insert(at, m) =~= s.push(m));
    }
}

/// The monitors in order of position.
pub fn sort_by_position(live: &[LiveMonitor]) -> (r: Vec<LiveMonitor>)
    ensures
        r@ == by_position(live@),
{
    let mut r: Vec<LiveMonitor> = Vec::new();
    let n: usize = live.len();
    let mut i: usize = 0;
    assert(live@.take(0) =~= seq![]);
    while i < n
        invariant
            n == live@.len(),
            i <= n,
            r@ == by_position(live@.take(i as int)),
        decreases n - i,
    {
        let m = live[i];
        let mut at: usize = r.len();
        while at > 0 && (m.left < r[at - 1].left || (m.left == r[at - 1].left && m.top < r[at
            - 1].top))
            invariant
                at <= r@.len(),
                forall|k: int| at <= k < r@.len() ==> precedes(m, #[trigger] r@[k]),
            decreases at,
        {
            at = at - 1;
        }
        proof {
            lemma_placed(r@, m, at as int);
            assert(live@.take(i + 1).drop_last() =~= live@.take(i as int));
        }
        r.insert(at, m);
        i = i + 1;
    }
    assert(live@.take(n as int) =~= live@);
    r
}

/// Tells whether some monitor begins further right than `left`.
fn any_right_of(sorted: &[LiveMonitor], left: i32) -> (r: bool)
    ensures
        r == exists|j: int| 0 <= j < sorted@.len() && (#[trigger] sorted@[j]).left > left,
{
    let n: usize = sorted.len();
    let mut j: usize = 0;
    while j < n
        invariant
            n == sorted@.len(),
            j <= n,
            forall|k: int| 0 <= k < j ==> (#[trigger] sorted@[k]).left <= left,
        decreases n - j,
    {
        if sorted[j].left > left {
            return true;
        }
        j = j + 1;
    }
    false
}

fn label_of(sorted: &[LiveMonitor], i: usize) -> (r: String)
    requires
        i < sorted@.len(),
    ensures
        r@ == position_label(sorted@, i as int),
{
    let left: i32 = sorted[i].left;
    if left < 0 {
        "left".to_string()
    } else if left == 0 && any_right_of(sorted, left) {
        "center".to_string()
    } else if i == 0 {
        "left".to_string()
    } else if i == sorted.len() - 1 {
        "right".to_string()
    } else {
        "center".to_string()
    }
}

/// Defines each connected monitor under the keys `mon-0`, `mon-1` and so on in order of position.
pub fn auto_detect_defs(live: &[LiveMonitor]) -> (r: Table<MonitorDef>)
    ensures
        are_definitions_of(r@, by_position(live@)),
{
    let sorted = sort_by_position(live);
    let mut r: Table<MonitorDef> = Table::new();
    let n: usize = sorted.len();
    let mut i: usize = 0;
    while i < n
        invariant
            n == sorted@.len(),
            i <= n,
            forall|k: int|
                0 <= k < i ==> r@.contains_key(#[trigger] detected_key(k as nat)) && describes(
                    r@[detected_key(k as nat)],
                    sorted@,
                    k,
                ),
            forall|key: Seq<char>| #[trigger]
                r@.contains_key(key) ==> exists|k: int|
                    0 <= k < i && key == #[trigger] detected_key(k as nat),
        decreases n - i,
    {
        let m = sorted[i];
        let mut key = "mon-".to_string();
        let number = write_decimal(i as u64);
        key.append(number.as_str());
        let mut name = label_of(sorted.as_slice(), i);
        name.append(" ");
        let width = write_decimal(m.width as u64);
        name.append(width.as_str());
        name.append("x");
        let height = write_decimal(m.height as u64);
        name.append(height.as_str());
        let ghost before = r@;
        r.insert(key, MonitorDef { name, left: m.left, top: m.top, width: m.width, height: m.height });
        proof {
            assert forall|k: int| 0 <= k < i + 1 implies r@.contains_key(
                #[trigger] detected_key(k as nat),
            ) && describes(r@[detected_key(k as nat)], sorted@, k) by {
                if k < i {
                    assert(before.contains_key(detected_key(k as nat)));
                    if detected_key(k as nat) == detected_key(i as nat) {
                        lemma_keys_differ(k as nat, i as nat);
                    }
                }
            }
            assert forall|other: Seq<char>| #[trigger] r@.contains_key(other) implies exists|k: int|
                0 <= k < i + 1 && other == #[trigger] detected_key(k as nat) by {
                if other == detected_key(i as nat) {
                    let k = i as int;
                    assert(other == detected_key(k as nat));
                } else {
                    assert(before.contains_key(other));
                    let k = choose|k: int| 0 <= k < i && other == #[trigger] detected_key(k as nat);
                    assert(other == detected_key(k as nat));
                }
            }
        }
        i = i + 1;
    }
    r
}

/// The definitions of monitors in order of position: `mon-0` and so on, each with the position and
/// resolution of its monitor, and a name of where it lies and its resolution; and no others.
pub proof fn definitions_describe_monitors(
    defs: Map<Seq<char>, MonitorDef>,
    sorted: Seq<LiveMonitor>,
    i: int,
    key: Seq<char>,
)
    requires
        are_definitions_of(defs, sorted),
    ensures
        0 <= i < sorted.len() ==> {
            let m = sorted[i];
            let own = "mon-"@ + decimal(i as nat);
            let place = if m.left < 0 {
                "left"@
            } else if m.left == 0 && (exists|j: int|
                0 <= j < sorted.len() && (#[trigger] sorted[j]).left > 0) {
                "center"@
            } else if i == 0 {
                "left"@
            } else if i == sorted.len() - 1 {
                "right"@
            } else {
                "center"@
            };
            &&& defs.contains_key(own)
            &&& defs[own].name@ == place + " "@ + decimal(m.width as nat) + "x"@ + decimal(
                m.height as nat,
            )
            &&& defs[own].left == m.left && defs[own].top == m.top
            &&& defs[own].width == m.width && defs[own].height == m.height
        },
        defs.contains_key(key) ==> exists|k: int|
            0 <= k < sorted.len() && key == "mon-"@ + #[trigger] decimal(k as nat),
{
    if 0 <= i < sorted.len() {
        assert(defs.contains_key(detected_key(i as nat)));
        assert(describes(defs[detected_key(i as nat)], sorted, i));
        let m = sorted[i];
        if m.left == 0 {
            if exists|j: int| 0 <= j < sorted.len() && (#[trigger] sorted[j]).left > m.left {
                let j = choose|j: int| 0 <= j < sorted.len() && (#[trigger] sorted[j]).left > m.left;
                assert(sorted[j].left > 0);
            }
        }
    }
    if defs.contains_key(key) {
        let k = choose|k: int| 0 <= k < sorted.len() && key == #[trigger] detected_key(k as nat);
        assert(key == "mon-"@ + decimal(k as nat));
    }
}

/// Sorting by position neither loses nor adds a monitor.
pub proof fn by_position_keeps_monitors(live: Seq<LiveMonitor>)
    ensures
        by_position(live).to_multiset() == live.to_multiset(),
        by_position(live).len() == live.len(),
    decreases live.len(),
{
    broadcast use vstd::seq_lib::group_to_multiset_ensures;

    if live.len() > 0 {
        let before = live.drop_last();
        by_position_keeps_monitors(before);
        lemma_placed_keeps(by_position(before), live.last());
        assert(live =~= before.push(live.last()));
    } else {
        assert(by_position(live) =~= live);
    }
}

proof fn lemma_placed_keeps(s: Seq<LiveMonitor>, m: LiveMonitor)
    ensures
        placed(s, m).to_multiset() == s.push(m).to_multiset(),
        placed(s, m).len() == s.len() + 1,
    decreases s.len(),
{
    broadcast use vstd::seq_lib::group_to_multiset_ensures;

    if s.len() > 0 && precedes(m, s.last()) {
        lemma_placed_keeps(s.drop_last(), m);
        assert(s =~= s.drop_last().push(s.last()));
        assert(placed(s, m).to_multiset() =~= s.push(m).to_multiset());
    }
}

/// Sorting by position leaves no monitor behind one that it precedes.
pub proof fn by_position_sorts(live: Seq<LiveMonitor>)
    ensures
        forall|i: int, j: int|
            0 <= i < j < by_position(live).len() ==> !precedes(
                #[trigger] by_position(live)[j],
                #[trigger] by_position(live)[i],
            ),
    decreases live.len(),
{
    if live.len() > 0 {
        by_position_sorts(live.drop_last());
        lemma_placed_sorts(by_position(live.drop_last()), live.last());
    }
}

/// The order of position is from left to right and, in a column, from top to bottom.
pub proof fn by_position_goes_right_and_down(live: Seq<LiveMonitor>, i: int, j: int)
    requires
        0 <= i < j < live.len(),
    ensures
        by_position(live).len() == live.len(),
        by_position(live)[i].left <= by_position(live)[j].left,
        by_position(live)[i].left == by_position(live)[j].left ==> by_position(live)[i].top
            <= by_position(live)[j].top,
{
    by_position_keeps_monitors(live);
    by_position_sorts(live);
    assert(!precedes(by_position(live)[j], by_position(live)[i]));
}

/// Monitors at one position keep the order in which they are reported.
pub proof fn by_position_is_stable(live: Seq<LiveMonitor>, left: i32, top: i32)
    ensures
        by_position(live).filter(|m: LiveMonitor| m.left == left && m.top == top) == live.filter(
            |m: LiveMonitor| m.left == left && m.top == top,
        ),
    decreases live.len(),
{
    reveal(Seq::filter);
    let here = |m: LiveMonitor| m.left == left && m.top == top;
    if live.len() > 0 {
        by_position_is_stable(live.drop_last(), left, top);
        by_position_sorts(live.drop_last());
        lemma_placed_is_stable(by_position(live.drop_last()), live.last(), here, left, top);
    }
}

proof fn lemma_placed_is_stable(
    s: Seq<LiveMonitor>,
    m: LiveMonitor,
    here: spec_fn(LiveMonitor) -> bool,
    left: i32,
    top: i32,
)
    requires
        here == (|m: LiveMonitor| m.left == left && m.top == top),
    ensures
        placed(s, m).filter(here) == if here(m) {
            s.filter(here).push(m)
        } else {
            s.filter(here)
        },
    decreases s.len(),
{
    reveal(Seq::filter);
    let all = placed(s, m);
    if s.len() > 0 && precedes(m, s.last()) {
        let front = s.drop_last();
        lemma_placed_is_stable(front, m, here, left, top);
        assert(all.drop_last() =~= placed(front, m));
        assert(all.last() == s.last());
    } else {
        assert(all.drop_last() =~= s);
        assert(all.last() == m);
    }
}

proof fn lemma_placed_sorts(s: Seq<LiveMonitor>, m: LiveMonitor)
    requires
        forall|i: int, j: int|
            0 <= i < j < s.len() ==> !precedes(#[trigger] s[j], #[trigger] s[i]),
    ensures
        forall|i: int, j: int|
            0 <= i < j < placed(s, m).len() ==> !precedes(
                #[trigger] placed(s, m)[j],
                #[trigger] placed(s, m)[i],
            ),
        forall|i: int|
            0 <= i < placed(s, m).len() ==> #[trigger] placed(s, m)[i] == m || exists|k: int|
                0 <= k < s.len() && placed(s, m)[i] == s[k],
    decreases s.len(),
{
    if s.len() > 0 && precedes(m, s.last()) {
        let front = s.drop_last();
        assert forall|i: int, j: int| 0 <= i < j < front.len() implies !precedes(
            #[trigger] front[j],
            #[trigger] front[i],
        ) by {
            assert(front[j] == s[j] && front[i] == s[i]);
        }
        lemma_placed_sorts(front, m);
        let inner = placed(front, m);
        let all = placed(s, m);
        assert forall|i: int| 0 <= i < all.len() implies #[trigger] all[i] == m || exists|k: int|
            0 <= k < s.len() && all[i] == s[k] by {
            if i < inner.len() {
                assert(all[i] == inner[i]);
                if inner[i] != m {
                    let k = choose|k: int| 0 <= k < front.len() && inner[i] == front[k];
                    assert(s[k] == all[i]);
                }
            } else {
                assert(all[i] == s[s.len() - 1]);
            }
        }
        assert forall|i: int, j: int| 0 <= i < j < all.len() implies !precedes(
            #[trigger] all[j],
            #[trigger] all[i],
        ) by {
            assert(all[i] == inner[i]);
            if j < inner.len() {
                assert(all[j] == inner[j]);
            } else if inner[i] != m {
                let k = choose|k: int| 0 <= k < front.len() && inner[i] == front[k];
                assert(s[k] == all[i]);
                assert(all[j] == s[s.len() - 1]);
            }
        }
    } else {
        let all = placed(s, m);
        assert forall|i: int| 0 <= i < all.len() implies #[trigger] all[i] == m || exists|k: int|
            0 <= k < s.len() && all[i] == s[k] by {
            if i < s.len() {
                assert(all[i] == s[i]);
            }
        }
        assert forall|i: int, j: int| 0 <= i < j < all.len() implies !precedes(
            #[trigger] all[j],
            #[trigger] all[i],
        ) by {
            if j < s.len() {
                assert(all[j] == s[j] && all[i] == s[i]);
            } else {
                assert(!precedes(m, s.last()));
                assert(s.last() == s[s.len() - 1]);
                assert(all[i] == s[i]);
            }
        }
    }
}

/// With the definitions of the monitors that are connected, each key finds a connected monitor
/// with exactly the position and resolution that was detected for it.
pub proof fn detected_monitors_are_found(
    live: Seq<LiveMonitor>,
    defs: Map<Seq<char>, MonitorDef>,
    i: int,
)
    requires
        are_definitions_of(defs, by_position(live)),
        0 <= i < live.len(),
    ensures
        ({
            let found = resolved_key(defs, detected_key(i as nat), live);
            &&& found is Ok
            &&& live.contains(found->Ok_0)
            &&& same_place(defs[detected_key(i as nat)], found->Ok_0)
            &&& same_size(defs[detected_key(i as nat)], found->Ok_0)
            &&& found->Ok_0.left == by_position(live)[i].left
            &&& found->Ok_0.top == by_position(live)[i].top
        }),
{
    broadcast use vstd::seq_lib::group_to_multiset_ensures;

    let sorted = by_position(live);
    by_position_keeps_monitors(live);
    let m = sorted[i];
    assert(sorted.contains(m));
    assert(live.to_multiset().contains(m));
    let k = choose|k: int| 0 <= k < live.len() && live[k] == m;
    let def = defs[detected_key(i as nat)];
    assert(describes(def, sorted, i));
    exact_match_wins(def, live, k);
}

/// A profile of detected monitors, its primary one among them, resolves as long as the same
/// monitors are connected.
pub proof fn detected_profile_resolves(
    live: Seq<LiveMonitor>,
    defs: Map<Seq<char>, MonitorDef>,
    keys: Seq<Seq<char>>,
    primary: Seq<char>,
)
    requires
        are_definitions_of(defs, by_position(live)),
        forall|i: int| 0 <= i < keys.len() ==> defs.contains_key(#[trigger] keys[i]),
        keys.contains(primary),
    ensures
        resolution(defs, keys, primary, live) is Ok,
{
    lemma_detected_keys_resolve(live, defs, keys);
}

proof fn lemma_detected_keys_resolve(
    live: Seq<LiveMonitor>,
    defs: Map<Seq<char>, MonitorDef>,
    keys: Seq<Seq<char>>,
)
    requires
        are_definitions_of(defs, by_position(live)),
        forall|i: int| 0 <= i < keys.len() ==> defs.contains_key(#[trigger] keys[i]),
    ensures
        resolved_keys(defs, keys, live) is Ok,
    decreases keys.len(),
{
    if keys.len() > 0 {
        let front = keys.drop_last();
        assert forall|i: int| 0 <= i < front.len() implies defs.contains_key(
            #[trigger] front[i],
        ) by {
            assert(front[i] == keys[i]);
        }
        lemma_detected_keys_resolve(live, defs, front);
        let key = keys[keys.len() - 1];
        assert(defs.contains_key(key));
        let i = choose|i: int|
            0 <= i < by_position(live).len() && key == #[trigger] detected_key(i as nat);
        by_position_keeps_monitors(live);
        detected_monitors_are_found(live, defs, i);
    }
}

/// Lists with the same elements are mapped to lists with the same elements.
proof fn lemma_map_multiset<A, B>(s: Seq<A>, t: Seq<A>, f: spec_fn(A) -> B)
    requires
        s.to_multiset() == t.to_multiset(),
    ensures
        s.map_values(f).to_multiset() == t.map_values(f).to_multiset(),
    decreases s.len(),
{
    broadcast use vstd::seq_lib::group_to_multiset_ensures;
    broadcast use vstd::multiset::group_multiset_axioms;

    s.to_multiset_ensures();
    t.to_multiset_ensures();
    if s.len() == 0 {
        assert(s.map_values(f) =~= t.map_values(f));
    } else {
        let x = s.last();
        let front = s.drop_last();
        assert(s =~= front.push(x));
        assert(s.contains(x));
        assert(t.to_multiset().count(x) > 0);
        let j = choose|j: int| 0 <= j < t.len() && t[j] == x;
        let rest = t.remove(j);
        assert(front.to_multiset() =~= s.to_multiset().remove(x));
        assert(rest.to_multiset() =~= t.to_multiset().remove(x));
        lemma_map_multiset(front, rest, f);
        assert(s.map_values(f) =~= front.map_values(f).push(f(x)));
        assert(t.map_values(f).remove(j) =~= rest.map_values(f));
        assert(t.map_values(f)[j] == f(x));
        assert(t.map_values(f).contains(f(x)));
        assert(t.map_values(f).to_multiset() =~= rest.map_values(f).to_multiset().insert(f(x)));
    }
}

/// Position and resolution of a monitor.
pub open spec fn screen_of(m: LiveMonitor) -> (i32, i32, u32, u32) {
    (m.left, m.top, m.width, m.height)
}

/// Position and resolution of each monitor.
pub open spec fn screens(live: Seq<LiveMonitor>) -> Seq<(i32, i32, u32, u32)> {
    live.map_values(|m: LiveMonitor| screen_of(m))
}

/// Monitors at one position have one resolution.
pub open spec fn one_screen_per_place(live: Seq<LiveMonitor>) -> bool {
    forall|i: int, j: int|
        #![trigger live[i], live[j]]
        0 <= i < live.len() && 0 <= j < live.len() && live[i].left == live[j].left && live[i].top
            == live[j].top ==> same_screen(live[i], live[j])
}

/// The two definitions state the same name, position and resolution.
pub open spec fn same_definition(a: MonitorDef, b: MonitorDef) -> bool {
    &&& a.name@ == b.name@
    &&& a.left == b.left && a.top == b.top
    &&& a.width == b.width && a.height == b.height
}

spec fn screen_order() -> spec_fn((i32, i32, u32, u32), (i32, i32, u32, u32)) -> bool {
    |a: (i32, i32, u32, u32), b: (i32, i32, u32, u32)|
        a.0 < b.0 || (a.0 == b.0 && (a.1 < b.1 || (a.1 == b.1 && (a.2 < b.2 || (a.2 == b.2 && a.3
            <= b.3)))))
}

/// Each screen of `live` is one of the monitors `among`, so that a position has one resolution.
proof fn lemma_sorted_screens(live: Seq<LiveMonitor>, among: Seq<LiveMonitor>)
    requires
        screens(live).to_multiset() == screens(among).to_multiset(),
        one_screen_per_place(among),
    ensures
        screens(by_position(live)).to_multiset() == screens(live).to_multiset(),
        sorted_by(screens(by_position(live)), screen_order()),
{
    broadcast use vstd::seq_lib::group_to_multiset_ensures;

    let sorted = by_position(live);
    let all = screens(sorted);
    by_position_keeps_monitors(live);
    by_position_sorts(live);
    lemma_map_multiset(sorted, live, |m: LiveMonitor| screen_of(m));
    assert forall|i: int, j: int| 0 <= i < j < all.len() implies #[trigger] screen_order()(
        all[i],
        all[j],
    ) by {
        assert(!precedes(sorted[j], sorted[i]));
        assert(all.contains(all[i]) && all.contains(all[j]));
        assert(screens(among).to_multiset().count(all[i]) > 0);
        assert(screens(among).to_multiset().count(all[j]) > 0);
        let k = choose|k: int| 0 <= k < screens(among).len() && screens(among)[k] == all[i];
        let l = choose|l: int| 0 <= l < screens(among).len() && screens(among)[l] == all[j];
        assert(screen_of(among[k]) == screen_of(sorted[i]));
        assert(screen_of(among[l]) == screen_of(sorted[j]));
        if sorted[i].left == sorted[j].left && sorted[i].top == sorted[j].top {
            assert(same_screen(among[k], among[l]));
        }
    }
}

/// The definitions do not depend on the order in which the monitors are reported, nor on their
/// numbers, as long as no two monitors at one position have different resolutions.
pub proof fn detection_ignores_order_and_numbers(
    before: Seq<LiveMonitor>,
    after: Seq<LiveMonitor>,
    old_defs: Map<Seq<char>, MonitorDef>,
    new_defs: Map<Seq<char>, MonitorDef>,
)
    requires
        screens(before).to_multiset() == screens(after).to_multiset(),
        one_screen_per_place(before),
        are_definitions_of(old_defs, by_position(before)),
        are_definitions_of(new_defs, by_position(after)),
    ensures
        old_defs.dom() == new_defs.dom(),
        forall|key: Seq<char>| #[trigger]
            old_defs.contains_key(key) ==> same_definition(old_defs[key], new_defs[key]),
{
    let a = by_position(before);
    let b = by_position(after);
    lemma_sorted_screens(before, before);
    lemma_sorted_screens(after, before);
    lemma_sorted_unique(screens(a), screens(b), screen_order());
    assert(a.len() == screens(a).len() && b.len() == screens(b).len());
    assert forall|i: int| 0 <= i < a.len() implies screen_of(#[trigger] a[i]) == screen_of(b[i]) by {
        assert(screens(a)[i] == screens(b)[i]);
    }
    assert forall|i: int| 0 <= i < a.len() implies #[trigger] detected_name(a, i) == detected_name(
        b,
        i,
    ) by {
        assert(screen_of(a[i]) == screen_of(b[i]));
        if exists|j: int| 0 <= j < a.len() && (#[trigger] a[j]).left > a[i].left {
            let j = choose|j: int| 0 <= j < a.len() && (#[trigger] a[j]).left > a[i].left;
            assert(b[j].left > b[i].left);
        }
        if exists|j: int| 0 <= j < b.len() && (#[trigger] b[j]).left > b[i].left {
            let j = choose|j: int| 0 <= j < b.len() && (#[trigger] b[j]).left > b[i].left;
            assert(a[j].left > a[i].left);
        }
    }
    assert forall|key: Seq<char>| old_defs.contains_key(key) == new_defs.contains_key(key) by {
        if old_defs.contains_key(key) {
            let i = choose|i: int| 0 <= i < a.len() && key == #[trigger] detected_key(i as nat);
            assert(new_defs.contains_key(detected_key(i as nat)));
        }
        if new_defs.contains_key(key) {
            let i = choose|i: int| 0 <= i < b.len() && key == #[trigger] detected_key(i as nat);
            assert(old_defs.contains_key(detected_key(i as nat)));
        }
    }
    assert(old_defs.dom() =~= new_defs.dom());
    assert forall|key: Seq<char>| #[trigger] old_defs.contains_key(key) implies same_definition(
        old_defs[key],
        new_defs[key],
    ) by {
        let i = choose|i: int| 0 <= i < a.len() && key == #[trigger] detected_key(i as nat);
        assert(describes(old_defs[detected_key(i as nat)], a, i));
        assert(describes(new_defs[detected_key(i as nat)], b, i));
        assert(detected_name(a, i) == detected_name(b, i));
        assert(screen_of(a[i]) == screen_of(b[i]));
    }
}

/// No two monitors have the same position and resolution.
pub open spec fn screens_differ(live: Seq<LiveMonitor>) -> bool {
    forall|i: int, j: int|
        0 <= i < j < live.len() ==> !same_screen(#[trigger] live[i], #[trigger] live[j])
}

/// The keys of the definitions with the numbers `order`, in that order.
pub open spec fn detected_keys(order: Seq<int>) -> Seq<Seq<char>> {
    order.map_values(|i: int| detected_key(i as nat))
}

/// The monitors of a list at the indices `order`, in that order.
pub open spec fn monitors_at(sorted: Seq<LiveMonitor>, order: Seq<int>) -> Seq<LiveMonitor> {
    order.map_values(|i: int| sorted[i])
}

/// The numbers of some monitors.
pub open spec fn ids_of(monitors: Seq<LiveMonitor>) -> Seq<u32> {
    monitors.map_values(|m: LiveMonitor| m.mstsc_id)
}

/// Another index than `q`.
pub open spec fn other_index(q: int) -> spec_fn(int) -> bool {
    |i: int| i != q
}

/// The indices `order`, with `q` first and the others in their order.
pub open spec fn first_and_others(order: Seq<int>, q: int) -> Seq<int> {
    seq![q] + order.filter(other_index(q))
}

/// The indices are those of a list of `n`, each at most once.
pub open spec fn are_indices(order: Seq<int>, n: nat) -> bool {
    order.no_duplicates() && forall|k: int| 0 <= k < order.len() ==> 0 <= #[trigger] order[k] < n
}

/// Where all screens differ, each detected key finds exactly the monitor that it was made for.
pub proof fn detected_key_finds_its_monitor(
    live: Seq<LiveMonitor>,
    defs: Map<Seq<char>, MonitorDef>,
    i: int,
)
    requires
        are_definitions_of(defs, by_position(live)),
        screens_differ(live),
        0 <= i < live.len(),
    ensures
        resolved_key(defs, detected_key(i as nat), live) == Ok::<LiveMonitor, Seq<char>>(
            by_position(live)[i],
        ),
{
    broadcast use vstd::seq_lib::group_to_multiset_ensures;

    let sorted = by_position(live);
    let m = sorted[i];
    by_position_keeps_monitors(live);
    detected_monitors_are_found(live, defs, i);
    let found = resolved_key(defs, detected_key(i as nat), live)->Ok_0;
    assert(describes(defs[detected_key(i as nat)], sorted, i));
    assert(sorted.contains(m));
    assert(live.to_multiset().count(m) > 0);
    let k = choose|k: int| 0 <= k < live.len() && live[k] == m;
    let l = choose|l: int| 0 <= l < live.len() && live[l] == found;
    assert(same_screen(live[k], live[l]));
    assert(same_screen(live[l], live[k]));
}

/// A profile of detected monitors selects exactly those, each once, the primary one first and the
/// others in the order of the profile; a profile of all of them selects every connected monitor.
pub proof fn detected_profile_selects_its_monitors(
    live: Seq<LiveMonitor>,
    defs: Map<Seq<char>, MonitorDef>,
    order: Seq<int>,
    q: int,
)
    requires
        are_definitions_of(defs, by_position(live)),
        screens_differ(live),
        are_indices(order, live.len()),
        order.contains(q),
    ensures
        ({
            let sorted = by_position(live);
            let chosen = monitors_at(sorted, first_and_others(order, q));
            &&& resolution(defs, detected_keys(order), detected_key(q as nat), live) == Ok::<
                (LiveMonitor, Seq<u32>),
                Seq<char>,
            >((sorted[q], ids_of(chosen)))
            &&& chosen.to_multiset() == monitors_at(sorted, order).to_multiset()
            &&& order.len() == live.len() ==> chosen.to_multiset() == live.to_multiset()
        }),
{
    let sorted = by_position(live);
    let keys = detected_keys(order);
    let primary = detected_key(q as nat);
    let p = choose|p: int| 0 <= p < order.len() && order[p] == q;
    assert(keys[p] == primary);
    assert(keys.contains(primary));
    lemma_detected_keys_found(live, defs, order);
    detected_key_finds_its_monitor(live, defs, q);
    lemma_detected_others(sorted, order, q);
    let chosen = monitors_at(sorted, first_and_others(order, q));
    let others = monitors_at(sorted, order.filter(other_index(q)));
    assert(ids_of(chosen) =~= seq![sorted[q].mstsc_id] + ids_of(others));
    lemma_first_and_others(order, q, p);
    lemma_map_multiset(first_and_others(order, q), order, |i: int| sorted[i]);
    if order.len() == live.len() {
        by_position_keeps_monitors(live);
        lemma_all_indices(order);
        let all = Seq::new(live.len(), |i: int| i);
        lemma_map_multiset(order, all, |i: int| sorted[i]);
        assert(all.map_values(|i: int| sorted[i]) =~= sorted);
    }
}

proof fn lemma_detected_keys_found(
    live: Seq<LiveMonitor>,
    defs: Map<Seq<char>, MonitorDef>,
    order: Seq<int>,
)
    requires
        are_definitions_of(defs, by_position(live)),
        screens_differ(live),
        forall|k: int| 0 <= k < order.len() ==> 0 <= #[trigger] order[k] < live.len(),
    ensures
        resolved_keys(defs, detected_keys(order), live) == Ok::<Seq<LiveMonitor>, Seq<char>>(
            monitors_at(by_position(live), order),
        ),
    decreases order.len(),
{
    let sorted = by_position(live);
    let keys = detected_keys(order);
    if order.len() == 0 {
        assert(monitors_at(sorted, order) =~= seq![]);
    } else {
        let front = order.drop_last();
        assert forall|k: int| 0 <= k < front.len() implies 0 <= #[trigger] front[k] < live.len() by {
            assert(front[k] == order[k]);
        }
        lemma_detected_keys_found(live, defs, front);
        assert(keys.drop_last() =~= detected_keys(front));
        assert(0 <= order[order.len() - 1] < live.len());
        detected_key_finds_its_monitor(live, defs, order.last());
        assert(monitors_at(sorted, front).push(sorted[order.last()]) =~= monitors_at(
            sorted,
            order,
        ));
    }
}

proof fn lemma_detected_others(sorted: Seq<LiveMonitor>, order: Seq<int>, q: int)
    requires
        q >= 0,
        forall|k: int| 0 <= k < order.len() ==> 0 <= #[trigger] order[k],
    ensures
        other_ids(detected_keys(order), monitors_at(sorted, order), detected_key(q as nat))
            == ids_of(monitors_at(sorted, order.filter(other_index(q)))),
    decreases order.len(),
{
    reveal(Seq::filter);
    let keys = detected_keys(order);
    let found = monitors_at(sorted, order);
    let kept = order.filter(other_index(q));
    if order.len() == 0 {
        assert(ids_of(monitors_at(sorted, kept)) =~= seq![]);
    } else {
        let front = order.drop_last();
        let last = order.last();
        assert forall|k: int| 0 <= k < front.len() implies 0 <= #[trigger] front[k] by {
            assert(front[k] == order[k]);
        }
        lemma_detected_others(sorted, front, q);
        assert(keys.drop_last() =~= detected_keys(front));
        assert(found.drop_last() =~= monitors_at(sorted, front));
        assert(keys.last() == detected_key(last as nat));
        assert(0 <= order[order.len() - 1]);
        if keys.last() == detected_key(q as nat) {
            lemma_keys_differ(last as nat, q as nat);
        }
        assert(ids_of(monitors_at(sorted, kept)) =~= if last == q {
            ids_of(monitors_at(sorted, front.filter(other_index(q))))
        } else {
            ids_of(monitors_at(sorted, front.filter(other_index(q)))).push(sorted[last].mstsc_id)
        });
    }
}

proof fn lemma_filter_without(order: Seq<int>, q: int)
    requires
        !order.contains(q),
    ensures
        order.filter(other_index(q)) == order,
    decreases order.len(),
{
    reveal(Seq::filter);
    if order.len() > 0 {
        let front = order.drop_last();
        assert(!front.contains(q)) by {
            if front.contains(q) {
                let k = choose|k: int| 0 <= k < front.len() && front[k] == q;
                assert(order[k] == q);
            }
        }
        lemma_filter_without(front, q);
        assert(order[order.len() - 1] != q);
        assert(front.push(order.last()) =~= order);
    } else {
        assert(order.filter(other_index(q)) =~= order);
    }
}

proof fn lemma_filter_one(order: Seq<int>, q: int, p: int)
    requires
        order.no_duplicates(),
        0 <= p < order.len(),
        order[p] == q,
    ensures
        order.filter(other_index(q)) == order.remove(p),
    decreases order.len(),
{
    reveal(Seq::filter);
    let front = order.drop_last();
    if p == order.len() - 1 {
        assert(!front.contains(q)) by {
            if front.contains(q) {
                let k = choose|k: int| 0 <= k < front.len() && front[k] == q;
                assert(order[k] == order[p]);
            }
        }
        lemma_filter_without(front, q);
        assert(order.remove(p) =~= front);
    } else {
        assert(front[p] == q);
        lemma_filter_one(front, q, p);
        assert(order.last() != q);
        assert(front.remove(p).push(order.last()) =~= order.remove(p));
    }
}

/// Putting one index first neither loses nor adds one.
proof fn lemma_first_and_others(order: Seq<int>, q: int, p: int)
    requires
        order.no_duplicates(),
        0 <= p < order.len(),
        order[p] == q,
    ensures
        first_and_others(order, q).to_multiset() == order.to_multiset(),
{
    broadcast use vstd::seq_lib::group_to_multiset_ensures;
    broadcast use vstd::multiset::group_multiset_axioms;

    lemma_filter_one(order, q, p);
    let rest = order.remove(p);
    let s = first_and_others(order, q);
    assert(s.remove(0) =~= rest);
    assert(s[0] == q);
    assert(s.contains(q) && order.contains(q));
    assert(s.remove(0).to_multiset() =~= s.to_multiset().remove(s[0]));
    assert(order.remove(p).to_multiset() =~= order.to_multiset().remove(order[p]));
    assert(s.to_multiset() =~= rest.to_multiset().insert(q));
    assert(order.to_multiset() =~= rest.to_multiset().insert(q));
}

/// As many different indices as there are places are all indices.
proof fn lemma_all_indices(order: Seq<int>)
    requires
        are_indices(order, order.len()),
    ensures
        order.to_multiset() == Seq::new(order.len(), |i: int| i).to_multiset(),
{
    broadcast use vstd::seq_lib::group_to_multiset_ensures;
    broadcast use vstd::multiset::group_multiset_axioms;

    let n = order.len() as int;
    let all = Seq::new(order.len(), |i: int| i);
    let range = set_int_range(0, n);
    lemma_int_range(0, n);
    order.unique_seq_to_set();
    assert(order.to_set().subset_of(range)) by {
        assert forall|x: int| order.to_set().contains(x) implies range.contains(x) by {
            let k = choose|k: int| 0 <= k < order.len() && order[k] == x;
            assert(0 <= order[k] < n);
        }
    }
    lemma_subset_equality(order.to_set(), range);
    order.lemma_multiset_has_no_duplicates();
    all.lemma_multiset_has_no_duplicates();
    assert forall|x: int| order.to_multiset().count(x) == all.to_multiset().count(x) by {
        if 0 <= x < n {
            assert(range.contains(x));
            assert(order.to_set().contains(x));
            assert(order.contains(x));
            assert(all[x] == x);
            assert(all.contains(x));
            assert(order.to_multiset().contains(x));
            assert(all.to_multiset().contains(x));
        } else {
            assert(!order.contains(x)) by {
                if order.contains(x) {
                    let k = choose|k: int| 0 <= k < order.len() && order[k] == x;
                    assert(0 <= order[k] < n);
                }
            }
            assert(!all.contains(x));
            assert(order.to_multiset().count(x) == 0);
            assert(all.to_multiset().count(x) == 0);
        }
    }
    assert(order.to_multiset() =~= all.to_multiset());
}

} // verus!
