//! Which monitor numbers a display profile stands for at the moment.
use vstd::prelude::*;
use vstd::string::StringExecFns;

use crate::config::{AppConfig, DisplayProfile, MonitorDef};
use crate::monitor::{
    at_one_index, best_match, is_best, match_is_the_first_nearest, match_monitor,
    match_survives_new_numbers, match_survives_renumbering, no_tie, same_screen, same_screens,
    same_screens_in_order, LiveMonitor,
};
use crate::number::{
    decimal, decimal_reads_back, is_digit, signed_decimal, unsigned_reads_back, unsigned_value,
    write_decimal, write_signed,
};
use crate::text::{
    join, join_separates_neighbours, joined, split, split_undoes_join, text_result, texts,
};

verus! {

/// What a profile stands for with the monitors connected now.
pub struct ResolvedProfile {
    /// The value of `selectedmonitors`: the monitor numbers, the primary one first.
    pub selected_monitors: String,
    /// Where the primary monitor begins.
    pub primary_left: i32,
    pub primary_top: i32,
}

/// The error for a profile that names a monitor without a definition.
pub open spec fn unknown_key(key: Seq<char>) -> Seq<char> {
    "Monitor definition '"@ + key + "' not found in config"@
}

/// The error for a definition that no connected monitor meets.
pub open spec fn unmatched(key: Seq<char>, def: MonitorDef) -> Seq<char> {
    "No current monitor matches '"@ + key + "' ("@ + decimal(def.width as nat) + "x"@ + decimal(
        def.height as nat,
    ) + " at "@ + signed_decimal(def.left as int) + ", "@ + signed_decimal(def.top as int) + ")"@
}

/// The connected monitor that a key of the configuration stands for.
pub open spec fn resolved_key(
    monitors: Map<Seq<char>, MonitorDef>,
    key: Seq<char>,
    live: Seq<LiveMonitor>,
) -> Result<LiveMonitor, Seq<char>> {
    if !monitors.contains_key(key) {
        Err(unknown_key(key))
    } else {
        match best_match(monitors[key], live) {
            Some(m) => Ok(m),
            None => Err(unmatched(key, monitors[key])),
        }
    }
}

/// The connected monitors that some keys stand for, or the error of the first key that stands for
/// none.
pub open spec fn resolved_keys(
    monitors: Map<Seq<char>, MonitorDef>,
    keys: Seq<Seq<char>>,
    live: Seq<LiveMonitor>,
) -> Result<Seq<LiveMonitor>, Seq<char>>
    decreases keys.len(),
{
    if keys.len() == 0 {
        Ok(seq![])
    } else {
        match resolved_keys(monitors, keys.drop_last(), live) {
            Err(e) => Err(e),
            Ok(before) => match resolved_key(monitors, keys.last(), live) {
                Err(e) => Err(e),
                Ok(m) => Ok(before.push(m)),
            },
        }
    }
}

/// The numbers of the monitors whose key is not `primary`, in their order.
pub open spec fn other_ids(
    keys: Seq<Seq<char>>,
    found: Seq<LiveMonitor>,
    primary: Seq<char>,
) -> Seq<u32>
    decreases keys.len(),
{
    if keys.len() == 0 {
        seq![]
    } else {
        let before = other_ids(keys.drop_last(), found.drop_last(), primary);
        if keys.last() == primary {
            before
        } else {
            before.push(found.last().mstsc_id)
        }
    }
}

/// The primary monitor of a profile and the numbers of all its monitors, the primary one first.
pub open spec fn resolution(
    monitors: Map<Seq<char>, MonitorDef>,
    keys: Seq<Seq<char>>,
    primary: Seq<char>,
    live: Seq<LiveMonitor>,
) -> Result<(LiveMonitor, Seq<u32>), Seq<char>> {
    match resolved_keys(monitors, keys, live) {
        Err(e) => Err(e),
        Ok(found) => if keys.contains(primary) {
            let m = resolved_key(monitors, primary, live)->Ok_0;
            Ok((m, seq![m.mstsc_id] + other_ids(keys, found, primary)))
        } else {
            Err("Primary monitor not found in profile"@)
        },
    }
}

/// The value of `selectedmonitors` for some monitor numbers.
pub open spec fn selected_text(ids: Seq<u32>) -> Seq<char> {
    join(ids.map_values(|id: u32| decimal(id as nat)), ","@)
}

/// What a profile of a configuration stands for.
pub open spec fn profile_resolution(
    config: AppConfig,
    profile: DisplayProfile,
    live: Seq<LiveMonitor>,
) -> Result<(LiveMonitor, Seq<u32>), Seq<char>> {
    resolution(config.monitors@, texts(profile.monitor_ids@), profile.primary@, live)
}

fn unknown_key_message(key: &str) -> (r: String)
    ensures
        r@ == unknown_key(key@),
{
    let mut r = "Monitor definition '".to_string();
    r.append(key);
    r.append("' not found in config");
    r
}

fn unmatched_message(key: &str, def: &MonitorDef) -> (r: String)
    ensures
        r@ == unmatched(key@, *def),
{
    let mut r = "No current monitor matches '".to_string();
    r.append(key);
    r.append("' (");
    let width = write_decimal(def.width as u64);
    r.append(width.as_str());
    r.append("x");
    let height = write_decimal(def.height as u64);
    r.append(height.as_str());
    r.append(" at ");
    let left = write_signed(def.left as i64);
    r.append(left.as_str());
    r.append(", ");
    let top = write_signed(def.top as i64);
    r.append(top.as_str());
    r.append(")");
    r
}

/// Writes monitor numbers as the value of `selectedmonitors`.
pub fn selected_monitors(ids: &[u32]) -> (r: String)
    ensures
        r@ == selected_text(ids@),
{
    let mut parts: Vec<String> = Vec::new();
    let n: usize = ids.len();
    let mut i: usize = 0;
    while i < n
        invariant
            n == ids@.len(),
            i <= n,
            parts@.len() == i,
            forall|k: int| 0 <= k < i ==> (#[trigger] parts@[k])@ == decimal(ids@[k] as nat),
        decreases n - i,
    {
        parts.push(write_decimal(ids[i] as u64));
        i = i + 1;
    }
    assert(texts(parts@) =~= ids@.map_values(|id: u32| decimal(id as nat)));
    joined(parts.as_slice(), ",")
}

proof fn lemma_error_stays(
    monitors: Map<Seq<char>, MonitorDef>,
    keys: Seq<Seq<char>>,
    live: Seq<LiveMonitor>,
    i: int,
)
    requires
        0 <= i <= keys.len(),
        resolved_keys(monitors, keys.take(i), live) is Err,
    ensures
        resolved_keys(monitors, keys, live) == resolved_keys(monitors, keys.take(i), live),
    decreases keys.len() - i,
{
    if i < keys.len() {
        assert(keys.take(i + 1).drop_last() =~= keys.take(i));
        lemma_error_stays(monitors, keys, live, i + 1);
    } else {
        assert(keys.take(i) =~= keys);
    }
}

/// Finds the monitors that a profile means among those connected now.
pub fn resolve_monitors(
    config: &AppConfig,
    profile: &DisplayProfile,
    live: &[LiveMonitor],
) -> (r: Result<ResolvedProfile, String>)
    ensures
        match r {
            Ok(resolved) => {
                &&& profile_resolution(*config, *profile, live@) is Ok
                &&& ({
                    let (primary, ids) = profile_resolution(*config, *profile, live@)->Ok_0;
                    &&& resolved.selected_monitors@ == selected_text(ids)
                    &&& resolved.primary_left == primary.left
                    &&& resolved.primary_top == primary.top
                })
            },
            Err(e) => profile_resolution(*config, *profile, live@) == Err::<
                (LiveMonitor, Seq<u32>),
                Seq<char>,
            >(e@),
        },
        r matches Ok(resolved) ==> {
            let defs = config.monitors@;
            let keys = texts(profile.monitor_ids@);
            let others = keys.filter(|key: Seq<char>| key != profile.primary@);
            let numbers = split(resolved.selected_monitors@, ',');
            &&& keys.contains(profile.primary@)
            &&& defs.contains_key(profile.primary@)
            &&& numbers.len() == 1 + others.len()
            &&& (best_match(defs[profile.primary@], live@) matches Some(m) && unsigned_value(
                numbers[0],
                u32::MAX as nat,
            ) == Some(m.mstsc_id as nat) && resolved.primary_left == m.left && resolved.primary_top == m.top)
            &&& forall|i: int|
                0 <= i < others.len() ==> defs.contains_key(#[trigger] others[i]) && (best_match(
                    defs[others[i]],
                    live@,
                ) matches Some(m) && unsigned_value(numbers[i + 1], u32::MAX as nat) == Some(
                    m.mstsc_id as nat,
                ))
        },
        r matches Err(e) ==> is_refusal_of(*config, *profile, live@, e@),
{
    proof {
        profile_selects_what_it_names(*config, *profile, live@);
    }
    let ghost monitors = config.monitors@;
    let ghost keys = texts(profile.monitor_ids@);
    let mut primary: Option<LiveMonitor> = None;
    let mut others: Vec<u32> = Vec::new();
    let ghost mut found: Seq<LiveMonitor> = seq![];
    let n: usize = profile.monitor_ids.len();
    let mut i: usize = 0;
    assert(keys.take(0) =~= seq![]);
    while i < n
        invariant
            monitors == config.monitors@,
            keys == texts(profile.monitor_ids@),
            n == profile.monitor_ids@.len(),
            i <= n,
            resolved_keys(monitors, keys.take(i as int), live@) == Ok::<
                Seq<LiveMonitor>,
                Seq<char>,
            >(found),
            others@ == other_ids(keys.take(i as int), found, profile.primary@),
            primary is Some <==> keys.take(i as int).contains(profile.primary@),
            primary is Some ==> resolved_key(monitors, profile.primary@, live@) == Ok::<
                LiveMonitor,
                Seq<char>,
            >(primary->0),
        decreases n - i,
    {
        let key = &profile.monitor_ids[i];
        assert(keys[i as int] == key@);
        let ghost now = keys.take(i as int);
        let ghost next = keys.take(i + 1);
        assert(next.drop_last() =~= now);
        assert(next.last() == key@);
        let def = match config.monitors.get(key.as_str()) {
            Some(def) => def,
            None => {
                proof {
                    lemma_error_stays(monitors, keys, live@, i + 1);
                    profile_selects_what_it_names(*config, *profile, live@);
                }
                return Err(unknown_key_message(key.as_str()));
            },
        };
        let m = match match_monitor(def, live) {
            Some(m) => m,
            None => {
                proof {
                    lemma_error_stays(monitors, keys, live@, i + 1);
                    profile_selects_what_it_names(*config, *profile, live@);
                }
                return Err(unmatched_message(key.as_str(), def));
            },
        };
        proof {
            let before = found;
            found = found.push(*m);
            assert(found.drop_last() =~= before);
            assert(next[i as int] == key@);
            if now.contains(profile.primary@) {
                let k = choose|k: int| 0 <= k < now.len() && now[k] == profile.primary@;
                assert(next[k] == profile.primary@);
            }
            if next.contains(profile.primary@) && key@ != profile.primary@ {
                let k = choose|k: int| 0 <= k < next.len() && next[k] == profile.primary@;
                assert(now[k] == profile.primary@);
            }
        }
        if *key == profile.primary {
            primary = Some(*m);
        } else {
            others.push(m.mstsc_id);
        }
        i = i + 1;
    }
    assert(keys.take(n as int) =~= keys);
    match primary {
        None => Err("Primary monitor not found in profile".to_string()),
        Some(m) => {
            let mut ids: Vec<u32> = Vec::new();
            ids.push(m.mstsc_id);
            ids.append(&mut others);
            assert(ids@ =~= seq![m.mstsc_id] + other_ids(keys, found, profile.primary@));
            Ok(
                ResolvedProfile {
                    selected_monitors: selected_monitors(ids.as_slice()),
                    primary_left: m.left,
                    primary_top: m.top,
                },
            )
        },
    }
}

/// The value of `selectedmonitors` that a profile stands for: the numbers that its monitors have
/// now, the primary one first.
pub fn resolve_profile(
    config: &AppConfig,
    profile: &DisplayProfile,
    live: &[LiveMonitor],
) -> (r: Result<String, String>)
    ensures
        text_result(r) == (match profile_resolution(*config, *profile, live@) {
            Ok((_, ids)) => Ok(selected_text(ids)),
            Err(e) => Err(e),
        }),
        r matches Ok(selected) ==> {
            let defs = config.monitors@;
            let keys = texts(profile.monitor_ids@);
            let others = keys.filter(|key: Seq<char>| key != profile.primary@);
            let numbers = split(selected@, ',');
            &&& keys.contains(profile.primary@)
            &&& defs.contains_key(profile.primary@)
            &&& numbers.len() == 1 + others.len()
            &&& (best_match(defs[profile.primary@], live@) matches Some(m) && unsigned_value(
                numbers[0],
                u32::MAX as nat,
            ) == Some(m.mstsc_id as nat))
            &&& forall|i: int|
                0 <= i < others.len() ==> defs.contains_key(#[trigger] others[i]) && (best_match(
                    defs[others[i]],
                    live@,
                ) matches Some(m) && unsigned_value(numbers[i + 1], u32::MAX as nat) == Some(
                    m.mstsc_id as nat,
                ))
        },
        r matches Err(e) ==> is_refusal_of(*config, *profile, live@, e@),
{
    match resolve_monitors(config, profile, live) {
        Ok(resolved) => Ok(resolved.selected_monitors),
        Err(e) => Err(e),
    }
}

/// Splitting the value of `selectedmonitors` at its commas and reading the parts as numbers gives
/// the monitor numbers back.
pub proof fn selected_text_reads_back(ids: Seq<u32>)
    requires
        ids.len() > 0,
    ensures
        split(selected_text(ids), ',').len() == ids.len(),
        forall|i: int|
            0 <= i < ids.len() ==> unsigned_value(
                #[trigger] split(selected_text(ids), ',')[i],
                u32::MAX as nat,
            ) == Some(ids[i] as nat),
{
    reveal_strlit(",");
    let parts = ids.map_values(|id: u32| decimal(id as nat));
    assert(","@ =~= seq![',']);
    assert forall|i: int| 0 <= i < parts.len() implies !(#[trigger] parts[i]).contains(',') by {
        decimal_reads_back(ids[i] as nat);
        assert forall|k: int| 0 <= k < parts[i].len() implies parts[i][k] != ',' by {
            assert(is_digit(parts[i][k]));
        }
    }
    split_undoes_join(parts, ',');
    assert forall|i: int| 0 <= i < ids.len() implies unsigned_value(
        #[trigger] split(selected_text(ids), ',')[i],
        u32::MAX as nat,
    ) == Some(ids[i] as nat) by {
        unsigned_reads_back(ids[i] as nat, u32::MAX as nat);
        assert(parts[i] == decimal(ids[i] as nat));
    }
}

/// The value of `selectedmonitors` holds nothing but digits and commas.
pub proof fn selected_text_is_plain(ids: Seq<u32>)
    ensures
        forall|k: int|
            0 <= k < selected_text(ids).len() ==> is_digit(#[trigger] selected_text(ids)[k])
                || selected_text(ids)[k] == ',',
        !selected_text(ids).contains('\n'),
    decreases ids.len(),
{
    reveal_strlit(",");
    let parts = ids.map_values(|id: u32| decimal(id as nat));
    if ids.len() > 0 {
        let front = ids.drop_last();
        selected_text_is_plain(front);
        assert(front.map_values(|id: u32| decimal(id as nat)) =~= parts.drop_last());
        decimal_reads_back(ids.last() as nat);
        let last = decimal(ids.last() as nat);
        assert(parts.last() == last);
        let text = selected_text(ids);
        let head = if ids.len() == 1 {
            seq![]
        } else {
            selected_text(front) + ","@
        };
        assert(text =~= head + last);
        assert forall|k: int| 0 <= k < text.len() implies is_digit(#[trigger] text[k]) || text[k]
            == ',' by {
            if k >= head.len() {
                assert(text[k] == last[k - head.len()]);
            } else {
                assert(text[k] == head[k]);
                if k < selected_text(front).len() {
                    assert(text[k] == selected_text(front)[k]);
                }
            }
        }
    }
}

proof fn lemma_resolved(
    monitors: Map<Seq<char>, MonitorDef>,
    keys: Seq<Seq<char>>,
    live: Seq<LiveMonitor>,
)
    requires
        resolved_keys(monitors, keys, live) is Ok,
    ensures
        resolved_keys(monitors, keys, live)->Ok_0.len() == keys.len(),
        forall|i: int|
            0 <= i < keys.len() ==> #[trigger] resolved_key(monitors, keys[i], live) == Ok::<
                LiveMonitor,
                Seq<char>,
            >(resolved_keys(monitors, keys, live)->Ok_0[i]),
    decreases keys.len(),
{
    if keys.len() > 0 {
        let front = keys.drop_last();
        lemma_resolved(monitors, front, live);
        assert forall|i: int| 0 <= i < keys.len() implies #[trigger] resolved_key(
            monitors,
            keys[i],
            live,
        ) == Ok::<LiveMonitor, Seq<char>>(resolved_keys(monitors, keys, live)->Ok_0[i]) by {
            if i < front.len() {
                assert(front[i] == keys[i]);
            }
        }
    }
}

/// The key is another than `primary`.
pub open spec fn other_key(primary: Seq<char>) -> spec_fn(Seq<char>) -> bool {
    |key: Seq<char>| key != primary
}

/// The first number is that of the monitor which the primary key means, and the others are those
/// of the monitors that the other keys mean, in the order of the keys.
pub proof fn primary_comes_first(
    monitors: Map<Seq<char>, MonitorDef>,
    keys: Seq<Seq<char>>,
    primary: Seq<char>,
    live: Seq<LiveMonitor>,
)
    requires
        resolution(monitors, keys, primary, live) is Ok,
    ensures
        ({
            let (m, ids) = resolution(monitors, keys, primary, live)->Ok_0;
            let others = keys.filter(other_key(primary));
            &&& resolved_key(monitors, primary, live) == Ok::<LiveMonitor, Seq<char>>(m)
            &&& ids.len() == 1 + others.len()
            &&& ids[0] == m.mstsc_id
            &&& forall|i: int|
                0 <= i < others.len() ==> (#[trigger] resolved_key(
                    monitors,
                    others[i],
                    live,
                ) matches Ok(other) && ids[i + 1] == other.mstsc_id)
        }),
{
    lemma_resolved(monitors, keys, live);
    let p = choose|p: int| 0 <= p < keys.len() && keys[p] == primary;
    assert(resolved_key(monitors, keys[p], live) is Ok);
    lemma_other_ids(monitors, keys, primary, live);
    let (m, ids) = resolution(monitors, keys, primary, live)->Ok_0;
    let others = keys.filter(other_key(primary));
    let found = resolved_keys(monitors, keys, live)->Ok_0;
    assert forall|i: int| 0 <= i < others.len() implies (#[trigger] resolved_key(
        monitors,
        others[i],
        live,
    ) matches Ok(other) && ids[i + 1] == other.mstsc_id) by {
        assert(ids[i + 1] == other_ids(keys, found, primary)[i]);
    }
}

proof fn lemma_other_ids(
    monitors: Map<Seq<char>, MonitorDef>,
    keys: Seq<Seq<char>>,
    primary: Seq<char>,
    live: Seq<LiveMonitor>,
)
    requires
        resolved_keys(monitors, keys, live) is Ok,
    ensures
        ({
            let others = keys.filter(other_key(primary));
            let ids = other_ids(keys, resolved_keys(monitors, keys, live)->Ok_0, primary);
            &&& ids.len() == others.len()
            &&& forall|i: int|
                0 <= i < others.len() ==> (#[trigger] resolved_key(
                    monitors,
                    others[i],
                    live,
                ) matches Ok(other) && ids[i] == other.mstsc_id)
        }),
    decreases keys.len(),
{
    reveal(Seq::filter);
    let keep = other_key(primary);
    if keys.len() > 0 {
        let front = keys.drop_last();
        lemma_other_ids(monitors, front, primary, live);
        let found = resolved_keys(monitors, keys, live)->Ok_0;
        let before = resolved_keys(monitors, front, live)->Ok_0;
        assert(found.drop_last() =~= before);
        let others = keys.filter(keep);
        let ids = other_ids(keys, found, primary);
        assert forall|i: int| 0 <= i < others.len() implies (#[trigger] resolved_key(
            monitors,
            others[i],
            live,
        ) matches Ok(other) && ids[i] == other.mstsc_id) by {
            let inner = front.filter(keep);
            if i < inner.len() {
                assert(others[i] == inner[i]);
                assert(resolved_key(monitors, inner[i], live) is Ok);
            }
        }
    }
}

/// Why a profile cannot be resolved: a key without a definition, or one whose definition no
/// connected monitor meets, with all keys before it in order; or, with all keys in order, a primary
/// key that is none of them. Each comes with its own message.
pub open spec fn is_refusal_of(
    config: AppConfig,
    profile: DisplayProfile,
    live: Seq<LiveMonitor>,
    e: Seq<char>,
) -> bool {
    let defs = config.monitors@;
    let keys = texts(profile.monitor_ids@);
    ||| exists|k: int| 0 <= k < keys.len() && #[trigger] is_refusal_at(defs, keys, live, k, e)
    ||| {
        &&& forall|j: int|
            0 <= j < keys.len() ==> defs.contains_key(#[trigger] keys[j]) && best_match(
                defs[keys[j]],
                live,
            ) is Some
        &&& !keys.contains(profile.primary@)
        &&& e == "Primary monitor not found in profile"@
    }
}

/// Key `k` is the first that stands for no connected monitor, and `e` says so.
pub open spec fn is_refusal_at(
    defs: Map<Seq<char>, MonitorDef>,
    keys: Seq<Seq<char>>,
    live: Seq<LiveMonitor>,
    k: int,
    e: Seq<char>,
) -> bool {
    let key = keys[k];
    &&& forall|j: int|
        0 <= j < k ==> defs.contains_key(#[trigger] keys[j]) && best_match(defs[keys[j]], live) is Some
    &&& if defs.contains_key(key) {
        let def = defs[key];
        &&& best_match(def, live) is None
        &&& e == "No current monitor matches '"@ + key + "' ("@ + decimal(def.width as nat) + "x"@
            + decimal(def.height as nat) + " at "@ + signed_decimal(def.left as int) + ", "@
            + signed_decimal(def.top as int) + ")"@
    } else {
        e == "Monitor definition '"@ + key + "' not found in config"@
    }
}

proof fn lemma_keys_refused(
    defs: Map<Seq<char>, MonitorDef>,
    keys: Seq<Seq<char>>,
    live: Seq<LiveMonitor>,
)
    requires
        resolved_keys(defs, keys, live) is Err,
    ensures
        exists|k: int|
            0 <= k < keys.len() && #[trigger] is_refusal_at(
                defs,
                keys,
                live,
                k,
                resolved_keys(defs, keys, live)->Err_0,
            ),
    decreases keys.len(),
{
    let e = resolved_keys(defs, keys, live)->Err_0;
    let front = keys.drop_last();
    if resolved_keys(defs, front, live) is Err {
        lemma_keys_refused(defs, front, live);
        let k = choose|k: int| 0 <= k < front.len() && #[trigger] is_refusal_at(
            defs,
            front,
            live,
            k,
            e,
        );
        assert forall|j: int| 0 <= j < k implies defs.contains_key(#[trigger] keys[j])
            && best_match(defs[keys[j]], live) is Some by {
            assert(front[j] == keys[j]);
        }
        assert(is_refusal_at(defs, keys, live, k, e));
    } else {
        let k = keys.len() - 1;
        lemma_resolved(defs, front, live);
        assert forall|j: int| 0 <= j < k implies defs.contains_key(#[trigger] keys[j])
            && best_match(defs[keys[j]], live) is Some by {
            assert(front[j] == keys[j]);
            assert(resolved_key(defs, front[j], live) is Ok);
        }
        assert(is_refusal_at(defs, keys, live, k, e));
    }
}

/// A profile that resolves names its primary monitor among its keys. The first number is that of
/// the connected monitor which the definition of this key means, whatever mark the system gives
/// it; the further numbers are those which the definitions of the other keys mean, in the order of
/// the profile. A profile that does not resolve is refused for the first reason there is.
pub proof fn profile_selects_what_it_names(
    config: AppConfig,
    profile: DisplayProfile,
    live: Seq<LiveMonitor>,
)
    ensures
        match profile_resolution(config, profile, live) {
            Ok((first, ids)) => {
                let defs = config.monitors@;
                let keys = texts(profile.monitor_ids@);
                let others = keys.filter(|key: Seq<char>| key != profile.primary@);
                let numbers = split(selected_text(ids), ',');
                &&& keys.contains(profile.primary@)
                &&& forall|j: int|
                    0 <= j < keys.len() ==> defs.contains_key(#[trigger] keys[j]) && best_match(
                        defs[keys[j]],
                        live,
                    ) is Some
                &&& defs.contains_key(profile.primary@)
                &&& best_match(defs[profile.primary@], live) == Some(first)
                &&& ids.len() == 1 + others.len()
                &&& ids[0] == first.mstsc_id
                &&& numbers.len() == ids.len()
                &&& unsigned_value(numbers[0], u32::MAX as nat) == Some(first.mstsc_id as nat)
                &&& forall|i: int|
                    0 <= i < others.len() ==> defs.contains_key(#[trigger] others[i]) && (best_match(
                        defs[others[i]],
                        live,
                    ) matches Some(m) && ids[i + 1] == m.mstsc_id && unsigned_value(
                        numbers[i + 1],
                        u32::MAX as nat,
                    ) == Some(m.mstsc_id as nat))
            },
            Err(e) => is_refusal_of(config, profile, live, e),
        },
{
    let defs = config.monitors@;
    let keys = texts(profile.monitor_ids@);
    let primary = profile.primary@;
    match profile_resolution(config, profile, live) {
        Ok((first, ids)) => {
            assert(other_key(primary) =~= (|key: Seq<char>| key != primary));
            primary_comes_first(defs, keys, primary, live);
            lemma_resolved(defs, keys, live);
            selected_text_reads_back(ids);
            let others = keys.filter(other_key(primary));
            let numbers = split(selected_text(ids), ',');
            assert forall|j: int| 0 <= j < keys.len() implies defs.contains_key(#[trigger] keys[j])
                && best_match(defs[keys[j]], live) is Some by {
                assert(resolved_key(defs, keys[j], live) is Ok);
            }
            assert(unsigned_value(numbers[0], u32::MAX as nat) == Some(ids[0] as nat));
            assert forall|i: int| 0 <= i < others.len() implies defs.contains_key(
                #[trigger] others[i],
            ) && (best_match(defs[others[i]], live) matches Some(m) && ids[i + 1] == m.mstsc_id
                && unsigned_value(numbers[i + 1], u32::MAX as nat) == Some(m.mstsc_id as nat)) by {
                assert(resolved_key(defs, others[i], live) is Ok);
                assert(unsigned_value(numbers[i + 1], u32::MAX as nat) == Some(ids[i + 1] as nat));
            }
        },
        Err(e) => {
            if resolved_keys(defs, keys, live) is Err {
                lemma_keys_refused(defs, keys, live);
            } else {
                lemma_resolved(defs, keys, live);
                assert forall|j: int| 0 <= j < keys.len() implies defs.contains_key(
                    #[trigger] keys[j],
                ) && best_match(defs[keys[j]], live) is Some by {
                    assert(resolved_key(defs, keys[j], live) is Ok);
                }
            }
        },
    }
}

/// A profile resolves as soon as its primary key is among its keys, each key has a definition, and
/// some connected monitor has the resolution of each definition. It does not resolve otherwise.
pub proof fn profile_resolves_when_all_are_connected(
    config: AppConfig,
    profile: DisplayProfile,
    live: Seq<LiveMonitor>,
)
    ensures
        profile_resolution(config, profile, live) is Ok <==> {
            let defs = config.monitors@;
            let keys = texts(profile.monitor_ids@);
            &&& exists|p: int| 0 <= p < keys.len() && #[trigger] keys[p] == profile.primary@
            &&& forall|j: int|
                0 <= j < keys.len() ==> defs.contains_key(#[trigger] keys[j]) && exists|i: int|
                    0 <= i < live.len() && (#[trigger] live[i]).width == defs[keys[j]].width
                        && live[i].height == defs[keys[j]].height
        },
{
    let defs = config.monitors@;
    let keys = texts(profile.monitor_ids@);
    profile_selects_what_it_names(config, profile, live);
    assert forall|j: int| 0 <= j < keys.len() implies (best_match(
        defs[#[trigger] keys[j]],
        live,
    ) is Some <==> exists|i: int|
        0 <= i < live.len() && (#[trigger] live[i]).width == defs[keys[j]].width && live[i].height
            == defs[keys[j]].height) by {
        match_is_the_first_nearest(defs[keys[j]], live);
    }
    if profile_resolution(config, profile, live) is Err {
        let e = profile_resolution(config, profile, live)->Err_0;
        if exists|k: int| 0 <= k < keys.len() && #[trigger] is_refusal_at(defs, keys, live, k, e) {
            let k = choose|k: int| 0 <= k < keys.len() && #[trigger] is_refusal_at(
                defs,
                keys,
                live,
                k,
                e,
            );
            assert(!(defs.contains_key(keys[k]) && best_match(defs[keys[k]], live) is Some));
        }
    }
}

/// Keys are gone through in their order, and the first that stands for no connected monitor is what
/// a refusal names: one without a definition by the key, one with a definition that no monitor
/// meets by the key and the definition. Only where every key stands for a monitor is a primary key
/// that is none of them refused.
pub proof fn refusal_names_the_first_fault(
    config: AppConfig,
    profile: DisplayProfile,
    live: Seq<LiveMonitor>,
    k: int,
)
    requires
        0 <= k <= profile.monitor_ids@.len(),
        forall|j: int|
            0 <= j < k ==> config.monitors@.contains_key((#[trigger] profile.monitor_ids@[j])@)
                && best_match(config.monitors@[profile.monitor_ids@[j]@], live) is Some,
    ensures
        k < profile.monitor_ids@.len() ==> {
            let key = profile.monitor_ids@[k]@;
            let def = config.monitors@[key];
            &&& !config.monitors@.contains_key(key) ==> profile_resolution(config, profile, live)
                == Err::<(LiveMonitor, Seq<u32>), Seq<char>>(
                "Monitor definition '"@ + key + "' not found in config"@,
            )
            &&& config.monitors@.contains_key(key) && best_match(def, live) is None
                ==> profile_resolution(config, profile, live) == Err::<
                (LiveMonitor, Seq<u32>),
                Seq<char>,
            >(
                "No current monitor matches '"@ + key + "' ("@ + decimal(def.width as nat) + "x"@
                    + decimal(def.height as nat) + " at "@ + signed_decimal(def.left as int) + ", "@
                    + signed_decimal(def.top as int) + ")"@,
            )
        },
        k == profile.monitor_ids@.len() && (forall|j: int|
            0 <= j < k ==> (#[trigger] profile.monitor_ids@[j])@ != profile.primary@)
            ==> profile_resolution(config, profile, live) == Err::<
            (LiveMonitor, Seq<u32>),
            Seq<char>,
        >("Primary monitor not found in profile"@),
{
    let defs = config.monitors@;
    let keys = texts(profile.monitor_ids@);
    assert forall|j: int| 0 <= j < k implies defs.contains_key(#[trigger] keys[j]) && best_match(
        defs[keys[j]],
        live,
    ) is Some by {
        assert(keys[j] == profile.monitor_ids@[j]@);
    }
    if k < keys.len() {
        assert(keys[k] == profile.monitor_ids@[k]@);
    }
    profile_resolves_when_all_are_connected(config, profile, live);
    profile_selects_what_it_names(config, profile, live);
    match profile_resolution(config, profile, live) {
        Ok(_) => {
            if k < keys.len() && defs.contains_key(keys[k]) {
                match_is_the_first_nearest(defs[keys[k]], live);
            }
            if k == keys.len() {
                let p = choose|p: int| 0 <= p < keys.len() && #[trigger] keys[p] == profile.primary@;
                assert(profile.monitor_ids@[p]@ == profile.primary@);
            }
        },
        Err(e) => {
            if exists|q: int| 0 <= q < keys.len() && #[trigger] is_refusal_at(defs, keys, live, q, e) {
                let q = choose|q: int| 0 <= q < keys.len() && #[trigger] is_refusal_at(
                    defs,
                    keys,
                    live,
                    q,
                    e,
                );
                assert(!(defs.contains_key(keys[q]) && best_match(defs[keys[q]], live) is Some));
                if q < k {
                    assert(defs.contains_key(keys[q]));
                }
                if k < q {
                    assert(defs.contains_key(keys[k]) && best_match(defs[keys[k]], live) is Some);
                }
            }
        },
    }
}

/// The value of `selectedmonitors` is each number in decimal, with one comma between neighbours.
pub proof fn selected_text_separates_numbers(ids: Seq<u32>, last: u32)
    ensures
        selected_text(seq![]) == Seq::<char>::empty(),
        selected_text(ids.push(last)) == if ids.len() == 0 {
            decimal(last as nat)
        } else {
            selected_text(ids) + ","@ + decimal(last as nat)
        },
{
    let parts = ids.map_values(|id: u32| decimal(id as nat));
    assert(ids.push(last).map_values(|id: u32| decimal(id as nat)) =~= parts.push(
        decimal(last as nat),
    ));
    join_separates_neighbours(parts, decimal(last as nat), ","@);
    assert(Seq::<u32>::empty().map_values(|id: u32| decimal(id as nat)) =~= seq![]);
}

/// Every key of a profile means the same screen, or fails with the same error, whatever order the
/// connected monitors come in and whatever numbers they have.
pub proof fn profile_survives_renumbering(
    monitors: Map<Seq<char>, MonitorDef>,
    keys: Seq<Seq<char>>,
    before: Seq<LiveMonitor>,
    after: Seq<LiveMonitor>,
)
    requires
        same_screens(before, after),
        forall|i: int|
            0 <= i < keys.len() && monitors.contains_key(#[trigger] keys[i]) ==> no_tie(
                monitors[keys[i]],
                before,
            ),
    ensures
        match resolved_keys(monitors, keys, before) {
            Err(e) => resolved_keys(monitors, keys, after) == Err::<Seq<LiveMonitor>, Seq<char>>(e),
            Ok(found) => resolved_keys(monitors, keys, after) matches Ok(again) && {
                &&& again.len() == found.len()
                &&& forall|i: int|
                    0 <= i < found.len() ==> same_screen(#[trigger] found[i], #[trigger] again[i])
            },
        },
    decreases keys.len(),
{
    if keys.len() > 0 {
        let front = keys.drop_last();
        assert forall|i: int|
            0 <= i < front.len() && monitors.contains_key(#[trigger] front[i]) implies no_tie(
            monitors[front[i]],
            before,
        ) by {
            assert(front[i] == keys[i]);
        }
        profile_survives_renumbering(monitors, front, before, after);
        let key = keys.last();
        if monitors.contains_key(key) {
            assert(no_tie(monitors[keys[keys.len() - 1]], before));
            match_survives_renumbering(monitors[key], before, after);
        }
    }
}

/// A screen has the number `old` among the monitors `before` and the number `new` among the
/// monitors `after`.
pub open spec fn number_one_screen(
    old: u32,
    new: u32,
    before: Seq<LiveMonitor>,
    after: Seq<LiveMonitor>,
) -> bool {
    exists|b: LiveMonitor, a: LiveMonitor|
        #![trigger before.contains(b), after.contains(a)]
        {
            &&& before.contains(b) && b.mstsc_id == old
            &&& after.contains(a) && a.mstsc_id == new
            &&& same_screen(b, a)
        }
}

/// A profile selects the same screens, the primary one first, whatever order the connected
/// monitors come in and whatever numbers they have: each number that is selected afterwards is
/// the one that the screen selected before has afterwards.
pub proof fn selection_survives_renumbering(
    monitors: Map<Seq<char>, MonitorDef>,
    keys: Seq<Seq<char>>,
    primary: Seq<char>,
    before: Seq<LiveMonitor>,
    after: Seq<LiveMonitor>,
)
    requires
        same_screens(before, after),
        forall|i: int|
            0 <= i < keys.len() && monitors.contains_key(#[trigger] keys[i]) ==> no_tie(
                monitors[keys[i]],
                before,
            ),
    ensures
        match resolution(monitors, keys, primary, before) {
            Err(e) => resolution(monitors, keys, primary, after) == Err::<
                (LiveMonitor, Seq<u32>),
                Seq<char>,
            >(e),
            Ok((m, ids)) => resolution(monitors, keys, primary, after) matches Ok((n, again)) && {
                &&& same_screen(m, n)
                &&& again.len() == ids.len()
                &&& forall|i: int|
                    0 <= i < ids.len() ==> #[trigger] number_one_screen(
                        ids[i],
                        again[i],
                        before,
                        after,
                    )
            },
        },
{
    profile_survives_renumbering(monitors, keys, before, after);
    if resolution(monitors, keys, primary, before) is Ok {
        let (m, ids) = resolution(monitors, keys, primary, before)->Ok_0;
        let (n, again) = resolution(monitors, keys, primary, after)->Ok_0;
        let others = keys.filter(other_key(primary));
        primary_comes_first(monitors, keys, primary, before);
        primary_comes_first(monitors, keys, primary, after);
        lemma_key_survives(monitors, keys, primary, before, after);
        assert forall|i: int| 0 <= i < ids.len() implies #[trigger] number_one_screen(
            ids[i],
            again[i],
            before,
            after,
        ) by {
            if i == 0 {
                assert(before.contains(m) && after.contains(n));
            } else {
                let key = others[i - 1];
                assert(others.contains(key));
                keys.lemma_filter_contains_rev(other_key(primary), key);
                assert(resolved_key(monitors, others[i - 1], before) is Ok);
                assert(resolved_key(monitors, others[i - 1], after) is Ok);
                let b = resolved_key(monitors, key, before)->Ok_0;
                let a = resolved_key(monitors, key, after)->Ok_0;
                lemma_key_survives(monitors, keys, key, before, after);
                assert(before.contains(b) && after.contains(a));
            }
        }
    }
}

/// The monitor at some index has the number `old` among the monitors `before` and the number `new`
/// among the monitors `after`.
pub open spec fn numbers_at_one_index(
    old: u32,
    new: u32,
    before: Seq<LiveMonitor>,
    after: Seq<LiveMonitor>,
) -> bool {
    exists|i: int|
        0 <= i < before.len() && i < after.len() && (#[trigger] before[i]).mstsc_id == old
            && after[i].mstsc_id == new
}

/// Where the connected monitors come in one order and only their numbers change, a profile selects
/// the monitors at the same indices, the primary one first, or fails with the same error.
pub proof fn selection_survives_new_numbers(
    monitors: Map<Seq<char>, MonitorDef>,
    keys: Seq<Seq<char>>,
    primary: Seq<char>,
    before: Seq<LiveMonitor>,
    after: Seq<LiveMonitor>,
)
    requires
        same_screens_in_order(before, after),
    ensures
        match resolution(monitors, keys, primary, before) {
            Err(e) => resolution(monitors, keys, primary, after) == Err::<
                (LiveMonitor, Seq<u32>),
                Seq<char>,
            >(e),
            Ok((m, ids)) => resolution(monitors, keys, primary, after) matches Ok((n, again)) && {
                &&& at_one_index(m, n, before, after)
                &&& again.len() == ids.len()
                &&& forall|i: int|
                    0 <= i < ids.len() ==> #[trigger] numbers_at_one_index(
                        ids[i],
                        again[i],
                        before,
                        after,
                    )
            },
        },
{
    lemma_keys_keep_errors(monitors, keys, before, after);
    if resolution(monitors, keys, primary, before) is Ok {
        let (m, ids) = resolution(monitors, keys, primary, before)->Ok_0;
        let (n, again) = resolution(monitors, keys, primary, after)->Ok_0;
        let others = keys.filter(other_key(primary));
        primary_comes_first(monitors, keys, primary, before);
        primary_comes_first(monitors, keys, primary, after);
        lemma_key_at_one_index(monitors, primary, before, after);
        assert forall|i: int| 0 <= i < ids.len() implies #[trigger] numbers_at_one_index(
            ids[i],
            again[i],
            before,
            after,
        ) by {
            if i == 0 {
                let k = choose|k: int|
                    0 <= k < before.len() && k < after.len() && #[trigger] before[k] == m
                        && after[k] == n;
                assert(before[k].mstsc_id == ids[i]);
            } else {
                let key = others[i - 1];
                assert(resolved_key(monitors, others[i - 1], before) is Ok);
                assert(resolved_key(monitors, others[i - 1], after) is Ok);
                let b = resolved_key(monitors, key, before)->Ok_0;
                let a = resolved_key(monitors, key, after)->Ok_0;
                lemma_key_at_one_index(monitors, key, before, after);
                let k = choose|k: int|
                    0 <= k < before.len() && k < after.len() && #[trigger] before[k] == b
                        && after[k] == a;
                assert(before[k].mstsc_id == ids[i]);
            }
        }
    }
}

proof fn lemma_key_at_one_index(
    monitors: Map<Seq<char>, MonitorDef>,
    key: Seq<char>,
    before: Seq<LiveMonitor>,
    after: Seq<LiveMonitor>,
)
    requires
        same_screens_in_order(before, after),
    ensures
        match resolved_key(monitors, key, before) {
            Err(e) => resolved_key(monitors, key, after) == Err::<LiveMonitor, Seq<char>>(e),
            Ok(b) => resolved_key(monitors, key, after) matches Ok(a) && at_one_index(
                b,
                a,
                before,
                after,
            ),
        },
{
    if monitors.contains_key(key) {
        match_survives_new_numbers(monitors[key], before, after);
    }
}

proof fn lemma_keys_keep_errors(
    monitors: Map<Seq<char>, MonitorDef>,
    keys: Seq<Seq<char>>,
    before: Seq<LiveMonitor>,
    after: Seq<LiveMonitor>,
)
    requires
        same_screens_in_order(before, after),
    ensures
        match resolved_keys(monitors, keys, before) {
            Err(e) => resolved_keys(monitors, keys, after) == Err::<Seq<LiveMonitor>, Seq<char>>(e),
            Ok(_) => resolved_keys(monitors, keys, after) is Ok,
        },
    decreases keys.len(),
{
    if keys.len() > 0 {
        lemma_keys_keep_errors(monitors, keys.drop_last(), before, after);
        lemma_key_at_one_index(monitors, keys.last(), before, after);
    }
}

proof fn lemma_key_survives(
    monitors: Map<Seq<char>, MonitorDef>,
    keys: Seq<Seq<char>>,
    key: Seq<char>,
    before: Seq<LiveMonitor>,
    after: Seq<LiveMonitor>,
)
    requires
        same_screens(before, after),
        forall|i: int|
            0 <= i < keys.len() && monitors.contains_key(#[trigger] keys[i]) ==> no_tie(
                monitors[keys[i]],
                before,
            ),
        keys.contains(key),
        resolved_key(monitors, key, before) is Ok,
    ensures
        resolved_key(monitors, key, after) is Ok,
        same_screen(
            resolved_key(monitors, key, before)->Ok_0,
            resolved_key(monitors, key, after)->Ok_0,
        ),
        before.contains(resolved_key(monitors, key, before)->Ok_0),
        after.contains(resolved_key(monitors, key, after)->Ok_0),
{
    let k = choose|k: int| 0 <= k < keys.len() && keys[k] == key;
    assert(monitors.contains_key(keys[k]));
    match_survives_renumbering(monitors[key], before, after);
    lemma_match_is_live(monitors[key], before);
    lemma_match_is_live(monitors[key], after);
}

proof fn lemma_match_is_live(def: MonitorDef, live: Seq<LiveMonitor>)
    requires
        best_match(def, live) is Some,
    ensures
        live.contains(best_match(def, live)->0),
{
    let i = choose|i: int| is_best(def, live, i);
    assert(live[i] == best_match(def, live)->0);
}

} // verus!
