//! Connecting to a host: what is checked first, and what a launch consists of.
use vstd::prelude::*;
use vstd::string::StringExecFns;
use vstd::utf8::{decode_utf8, valid_utf8};

use crate::casing::{is_ascii_text, lowercased};
use crate::config::{AppConfig, DisplayProfile, HostEntry};
use crate::decode::{decodable, decode_utf8_lossily, file_text, holds_text, lossy_utf8_text};
use crate::hosts::{find_host, has_host, host_index};
use crate::launch_file::{
    any_sets, is_launch_file, launch_keeps_connection, launch_lines, launch_states_its_settings,
    launch_text, launch_text_reads_back, prepare_rdp_for_launch, selection_line, sets, LaunchFile,
};
use crate::monitor::LiveMonitor;
use crate::number::is_digit;
use crate::profile::{
    profile_resolution, resolve_monitors, resolve_profile, selected_text, selected_text_is_plain,
};
use crate::rdp::{
    info_host, info_port, info_username, rdp_host, read_rdp_host, setting, settings,
};
use crate::session::{
    ascii_host_has_session, ascii_hosts, host_has_session, is_host_connected, session_texts,
    ActiveSession,
};
use crate::text::{
    chars_of, contains, is_white_space, join, lines, string_of, trim, trimmed, without_blank_end,
};

verus! {

/// The profile that a connection uses: the one asked for, or the host's default.
pub open spec fn profile_key(host: HostEntry, asked: Option<Seq<char>>) -> Seq<char> {
    match asked {
        Some(key) => key,
        None => host.default_profile@,
    }
}

/// The host and the profile of a connection, or why there are none.
pub open spec fn target(
    config: AppConfig,
    host_id: Seq<char>,
    asked: Option<Seq<char>>,
) -> Result<(HostEntry, DisplayProfile), Seq<char>> {
    let hosts = config.hosts@;
    if !has_host(hosts, host_id) {
        Err("Host not found"@)
    } else {
        let host = hosts[host_index(hosts, host_id)];
        let key = profile_key(host, asked);
        if !config.profiles@.contains_key(key) {
            Err("Profile '"@ + key + "' not found"@)
        } else {
            Ok((host, config.profiles@[key]))
        }
    }
}

/// The text of an optional string.
pub open spec fn text_option(s: Option<&str>) -> Option<Seq<char>> {
    match s {
        Some(s) => Some(s@),
        None => None,
    }
}

/// Looks up the host and the profile of a connection.
pub fn connect_target<'a>(
    config: &'a AppConfig,
    host_id: &str,
    profile_id: Option<&str>,
) -> (r: Result<(&'a HostEntry, &'a DisplayProfile), String>)
    ensures
        match r {
            Ok((host, profile)) => target(*config, host_id@, text_option(profile_id)) == Ok::<
                (HostEntry, DisplayProfile),
                Seq<char>,
            >((*host, *profile)),
            Err(e) => target(*config, host_id@, text_option(profile_id)) == Err::<
                (HostEntry, DisplayProfile),
                Seq<char>,
            >(e@),
        },
        (forall|j: int| 0 <= j < config.hosts@.len() ==> (#[trigger] config.hosts@[j]).id@ != host_id@)
            ==> (r matches Err(e) && e@ == "Host not found"@),
        forall|i: int|
            0 <= i < config.hosts@.len() && (#[trigger] config.hosts@[i]).id@ == host_id@ && (forall|
                j: int,
            |
                0 <= j < i ==> (#[trigger] config.hosts@[j]).id@ != host_id@) ==> {
                let key = match profile_id {
                    Some(asked) => asked@,
                    None => config.hosts@[i].default_profile@,
                };
                match r {
                    Ok((host, profile)) => {
                        &&& *host == config.hosts@[i]
                        &&& config.profiles@.contains_key(key)
                        &&& *profile == config.profiles@[key]
                    },
                    Err(e) => !config.profiles@.contains_key(key) && e@ == "Profile '"@ + key
                        + "' not found"@,
                }
            },
{
    let i: usize = match find_host(config.hosts.as_slice(), host_id) {
        Some(i) => i,
        None => {
            return Err("Host not found".to_string());
        },
    };
    proof {
        crate::hosts::lemma_host_index(config.hosts@, host_id@);
    }
    let host = &config.hosts[i];
    let key: &str = match profile_id {
        Some(key) => key,
        None => host.default_profile.as_str(),
    };
    match config.profiles.get(key) {
        Some(profile) => Ok((host, profile)),
        None => {
            let mut message = "Profile '".to_string();
            message.append(key);
            message.append("' not found");
            Err(message)
        },
    }
}

/// What a check before connecting says.
#[derive(Debug, Clone)]
pub struct ConnectResult {
    pub success: bool,
    pub message: String,
    /// The host appears to have an open session, so that the user should confirm.
    pub needs_confirm: bool,
    /// The host that the .rdp file names, empty where it names none.
    pub host: String,
    pub host_name: String,
}

/// The error of a connection, if it fails before the .rdp file is read.
pub open spec fn connect_error(
    config: AppConfig,
    host_id: Seq<char>,
    asked: Option<Seq<char>>,
    live: Result<Vec<LiveMonitor>, String>,
) -> Option<Seq<char>> {
    match target(config, host_id, asked) {
        Err(e) => Some(e),
        Ok((_, profile)) => match live {
            Err(e) => Some(e@),
            Ok(live) => match profile_resolution(config, profile, live@) {
                Err(e) => Some(e),
                Ok(_) => None,
            },
        },
    }
}

/// The host that the text of a .rdp file names, empty where it names none.
pub open spec fn host_in_text(path: Seq<char>, content: Seq<char>) -> Seq<char> {
    match rdp_host(path, content) {
        Ok(host) => host,
        Err(_) => seq![],
    }
}

/// The host that a .rdp file names, empty where it names none or cannot be read.
pub open spec fn named_host(path: Seq<char>, raw: Result<Vec<u8>, String>) -> Seq<char> {
    match file_text(path, raw) {
        Ok(content) => host_in_text(path, content),
        Err(_) => seq![],
    }
}

/// `result` says that a connection to `host`, of which the .rdp file names the host `named`, is
/// possible, and whether it should be confirmed.
pub open spec fn is_go_ahead(
    result: ConnectResult,
    host: HostEntry,
    named: Seq<char>,
    sessions: Seq<(Seq<char>, Seq<char>)>,
) -> bool {
    &&& result.success
    &&& result.message@.len() == 0
    &&& result.host@ == named
    &&& result.host_name@ == host.name@
    &&& result.needs_confirm == host_has_session(named, sessions)
    &&& is_ascii_text(named) && ascii_hosts(sessions) ==> result.needs_confirm
        == ascii_host_has_session(named, sessions)
    &&& named.len() == 0 ==> result.needs_confirm == (sessions.len() > 0)
}

/// Checks whether a connection is possible and whether it should be confirmed. `live` are the
/// monitors connected now, `raw` the bytes of the host's .rdp file, `sessions` the open sessions.
pub fn preflight_connect(
    config: &AppConfig,
    host_id: &str,
    profile_id: Option<&str>,
    live: Result<Vec<LiveMonitor>, String>,
    raw: Result<Vec<u8>, String>,
    sessions: &[ActiveSession],
) -> (r: Result<ConnectResult, String>)
    requires
        decodable(raw),
    ensures
        match connect_error(*config, host_id@, text_option(profile_id), live) {
            Some(error) => r matches Err(e) && e@ == error,
            None => r matches Ok(result) && ({
                let (host, _) = target(*config, host_id@, text_option(profile_id))->Ok_0;
                &&& is_go_ahead(
                    result,
                    host,
                    named_host(host.rdp_file@, raw),
                    session_texts(sessions@),
                )
                &&& raw matches Ok(raw) ==> forall|content: Seq<char>| #[trigger]
                    holds_text(raw@, content) ==> is_go_ahead(
                        result,
                        host,
                        host_in_text(host.rdp_file@, content),
                        session_texts(sessions@),
                    )
            }),
        },
        match target(*config, host_id@, text_option(profile_id)) {
            Err(refusal) => r matches Err(e) && e@ == refusal,
            Ok((host, profile)) => match live {
                Err(failure) => r matches Err(e) && e@ == failure@,
                Ok(live) => match profile_resolution(*config, profile, live@) {
                    Err(refusal) => r matches Err(e) && e@ == refusal,
                    Ok(_) => r matches Ok(result) && {
                        &&& result.success && result.message@.len() == 0
                        &&& result.host_name@ == host.name@
                        &&& match file_text(host.rdp_file@, raw) {
                            Ok(content) => match rdp_host(host.rdp_file@, content) {
                                Ok(named) => result.host@ == named,
                                Err(_) => result.host@.len() == 0,
                            },
                            Err(_) => result.host@.len() == 0,
                        }
                        &&& result.needs_confirm == exists|i: int|
                            0 <= i < sessions@.len() && (contains(
                                lowercased((#[trigger] sessions@[i]).hostname@),
                                lowercased(result.host@),
                            ) || contains(
                                lowercased(result.host@),
                                lowercased(sessions@[i].hostname@),
                            ))
                    },
                },
            },
        },
{
    let (host, profile) = match connect_target(config, host_id, profile_id) {
        Ok(found) => found,
        Err(e) => {
            return Err(e);
        },
    };
    let live = match live {
        Ok(live) => live,
        Err(e) => {
            return Err(e);
        },
    };
    match resolve_profile(config, profile, live.as_slice()) {
        Ok(_) => {},
        Err(e) => {
            return Err(e);
        },
    }
    let named = match read_rdp_host(host.rdp_file.as_str(), raw) {
        Ok(named) => named,
        Err(_) => String::new(),
    };
    assert(named@ =~= named_host(host.rdp_file@, raw));
    proof {
        if raw is Ok {
            assert forall|content: Seq<char>| #[trigger]
                holds_text(raw->Ok_0@, content) implies named@ == host_in_text(
                host.rdp_file@,
                content,
            ) by {
                assert(named@ =~= host_in_text(host.rdp_file@, content));
            }
        }
    }
    assert(session_texts(sessions@).len() == sessions@.len());
    Ok(
        ConnectResult {
            success: true,
            message: String::new(),
            needs_confirm: is_host_connected(named.as_str(), sessions),
            host: named,
            host_name: host.name.clone(),
        },
    )
}

/// What the user wants to happen around a launch.
#[derive(Debug, Clone, Copy, PartialEq, Eq, Structural)]
pub struct LaunchOptions {
    /// Keep a copy of the launched file.
    pub save_last_rdp: bool,
    /// Move the session to the primary monitor of its profile.
    pub relocate_to_primary: bool,
    /// Minimize the launcher.
    pub minimize_on_connect: bool,
}

/// What a launch consists of.
pub struct LaunchPlan {
    /// The file to write and to hand to `mstsc`.
    pub file: LaunchFile,
    /// Copy that file to the last launched one.
    pub keep_copy: bool,
    /// Where the monitor begins to which the session is to be moved.
    pub relocate: Option<(i32, i32)>,
    /// Minimize the launcher.
    pub minimize: bool,
    /// The host's name and the selected monitors, with a `|` between them.
    pub message: String,
}

/// The plan launches a file with the given text for `host` on the monitors with the numbers `ids`,
/// of which `primary` is the primary one.
pub open spec fn is_plan(
    plan: LaunchPlan,
    options: LaunchOptions,
    host: HostEntry,
    primary: LiveMonitor,
    ids: Seq<u32>,
    stem: Seq<char>,
    content: Seq<char>,
) -> bool {
    &&& is_launch_file(plan.file, stem, content, selected_text(ids))
    &&& plan.keep_copy == options.save_last_rdp
    &&& plan.relocate == (if options.relocate_to_primary {
        Some((primary.left, primary.top))
    } else {
        None
    })
    &&& plan.minimize == options.minimize_on_connect
    &&& plan.message@ == host.name@ + "|"@ + selected_text(ids)
}

/// Plans a connection. `live` are the monitors connected now, `raw` the bytes of the host's .rdp
/// file and `stem` the name of that file without its extension.
pub fn connect(
    config: &AppConfig,
    options: LaunchOptions,
    host_id: &str,
    profile_id: Option<&str>,
    live: Result<Vec<LiveMonitor>, String>,
    raw: Result<Vec<u8>, String>,
    stem: &str,
) -> (r: Result<LaunchPlan, String>)
    requires
        decodable(raw),
    ensures
        match connect_error(*config, host_id@, text_option(profile_id), live) {
            Some(error) => r matches Err(e) && e@ == error,
            None => {
                let (host, profile) = target(*config, host_id@, text_option(profile_id))->Ok_0;
                let (primary, ids) = profile_resolution(*config, profile, live->Ok_0@)->Ok_0;
                &&& match file_text(host.rdp_file@, raw) {
                    Err(fault) => r matches Err(e) && e@ == fault,
                    Ok(content) => r matches Ok(plan) && is_plan(
                        plan,
                        options,
                        host,
                        primary,
                        ids,
                        stem@,
                        content,
                    ),
                }
                &&& raw matches Ok(raw) ==> forall|content: Seq<char>| #[trigger]
                    holds_text(raw@, content) ==> (r matches Ok(plan) && is_plan(
                        plan,
                        options,
                        host,
                        primary,
                        ids,
                        stem@,
                        content,
                    ))
            },
        },
        match target(*config, host_id@, text_option(profile_id)) {
            Err(refusal) => r matches Err(e) && e@ == refusal,
            Ok((host, profile)) => match live {
                Err(failure) => r matches Err(e) && e@ == failure@,
                Ok(live) => match profile_resolution(*config, profile, live@) {
                    Err(refusal) => r matches Err(e) && e@ == refusal,
                    Ok((primary, ids)) => match file_text(host.rdp_file@, raw) {
                        Err(fault) => r matches Err(e) && e@ == fault,
                        Ok(content) => r matches Ok(plan) && {
                            let copy = plan.file.content@;
                            &&& plan.file.file_name@ == stem@ + "_launch.rdp"@
                            &&& copy == join(
                                launch_lines(lines(content), selected_text(ids)),
                                "\r\n"@,
                            )
                            &&& rdp_host(host.rdp_file@, copy) == rdp_host(host.rdp_file@, content)
                            &&& info_host(copy) == info_host(content)
                            &&& info_port(copy) == info_port(content)
                            &&& info_username(copy) == info_username(content)
                            &&& forall|i: int|
                                0 <= i < lines(content).len() && !"selectedmonitors:"@.is_prefix_of(
                                    trimmed(#[trigger] lines(content)[i]),
                                ) && !"use multimon:"@.is_prefix_of(trimmed(lines(content)[i]))
                                    && !"screen mode id:"@.is_prefix_of(trimmed(lines(content)[i]))
                                    && (i + 1 < lines(content).len() || lines(content)[i].len() > 0)
                                    ==> i < lines(copy).len() && lines(copy)[i] == lines(content)[i]
                            &&& plan.keep_copy == options.save_last_rdp
                            &&& plan.minimize == options.minimize_on_connect
                            &&& plan.relocate == (if options.relocate_to_primary {
                                Some((primary.left, primary.top))
                            } else {
                                None
                            })
                            &&& plan.message@ == host.name@ + "|"@ + selected_text(ids)
                        },
                    },
                },
            },
        },
{
    let (host, profile) = match connect_target(config, host_id, profile_id) {
        Ok(found) => found,
        Err(e) => {
            return Err(e);
        },
    };
    let live = match live {
        Ok(live) => live,
        Err(e) => {
            return Err(e);
        },
    };
    let resolved = match resolve_monitors(config, profile, live.as_slice()) {
        Ok(resolved) => resolved,
        Err(e) => {
            return Err(e);
        },
    };
    let file = match prepare_rdp_for_launch(
        host.rdp_file.as_str(),
        raw,
        stem,
        resolved.selected_monitors.as_str(),
    ) {
        Ok(file) => file,
        Err(e) => {
            return Err(e);
        },
    };
    proof {
        let ids = profile_resolution(*config, *profile, live@)->Ok_0.1;
        selected_text_is_plain(ids);
    }
    let mut message = host.name.clone();
    message.append("|");
    message.append(resolved.selected_monitors.as_str());
    Ok(
        LaunchPlan {
            file,
            keep_copy: options.save_last_rdp,
            relocate: if options.relocate_to_primary {
                Some((resolved.primary_left, resolved.primary_top))
            } else {
                None
            },
            minimize: options.minimize_on_connect,
            message,
        },
    )
}

/// The file of a launch, when it is read, selects the monitors of the profile and no others, and
/// connects to the host, the port and the user of the file that it is made from.
pub proof fn launch_opens_as_planned(path: Seq<char>, content: Seq<char>, ids: Seq<u32>)
    ensures
        ({
            let text = launch_text(content, selected_text(ids));
            let selections = settings(text, "selectedmonitors:s:"@);
            &&& selections.len() > 0
            &&& forall|i: int|
                0 <= i < selections.len() ==> #[trigger] selections[i] == selected_text(ids)
            &&& rdp_host(path, text) == rdp_host(path, content)
            &&& info_host(text) == info_host(content)
            &&& info_port(text) == info_port(content)
            &&& info_username(text) == info_username(content)
        }),
{
    let selected = selected_text(ids);
    let text = launch_text(content, selected);
    selected_text_is_plain(ids);
    launch_keeps_connection(path, content, selected);
    launch_text_reads_back(content, selected);
    launch_states_its_settings(lines(content), selected);
    reveal_strlit("selectedmonitors:");
    reveal_strlit("selectedmonitors:s:");
    let key = "selectedmonitors:"@;
    let prefix = "selectedmonitors:s:"@;
    let line = selection_line(selected);
    assert(!is_white_space(line[0]));
    assert(!is_white_space(line.last())) by {
        if selected.len() > 0 {
            assert(line.last() == selected[selected.len() - 1]);
            assert(is_digit(selected[selected.len() - 1]) || selected[selected.len() - 1] == ',');
        }
    }
    assert(trimmed(line) == line);
    assert(line.skip(prefix.len() as int) =~= selected);
    assert(setting(line, prefix) == Some(selected));
    let out = launch_lines(lines(content), selected);
    let all = lines(text);
    assert(all == without_blank_end(out));
    assert forall|i: int| 0 <= i < all.len() implies {
        ||| setting(#[trigger] all[i], prefix) is None
        ||| setting(all[i], prefix) == Some(selected)
    } by {
        assert(all[i] == out[i]);
        if setting(all[i], prefix) is Some {
            assert(key.is_prefix_of(trimmed(all[i])));
            assert(sets(out[i], key));
        }
    }
    assert(any_sets(out, key));
    let k = choose|k: int| 0 <= k < out.len() && #[trigger] sets(out[k], key);
    assert(out[k] == line);
    assert(line.len() > 0);
    assert(all[k] == line);
    lemma_only_value(all, prefix, selected, k);
}

proof fn lemma_only_value(all: Seq<Seq<char>>, prefix: Seq<char>, value: Seq<char>, k: int)
    requires
        0 <= k < all.len(),
        setting(all[k], prefix) == Some(value),
        forall|i: int|
            0 <= i < all.len() ==> {
                ||| setting(#[trigger] all[i], prefix) is None
                ||| setting(all[i], prefix) == Some(value)
            },
    ensures
        ({
            let found = all.filter_map(|line: Seq<char>| setting(line, prefix));
            &&& found.len() > 0
            &&& forall|i: int| 0 <= i < found.len() ==> #[trigger] found[i] == value
        }),
    decreases all.len(),
{
    let read = |line: Seq<char>| setting(line, prefix);
    let front = all.drop_last();
    let last = all.len() - 1;
    assert forall|i: int| 0 <= i < front.len() implies {
        ||| setting(#[trigger] front[i], prefix) is None
        ||| setting(front[i], prefix) == Some(value)
    } by {
        assert(front[i] == all[i]);
    }
    assert(setting(all[last], prefix) is None || setting(all[last], prefix) == Some(value));
    if exists|i: int| 0 <= i < front.len() && setting(#[trigger] front[i], prefix) is Some {
        let i = choose|i: int| 0 <= i < front.len() && setting(#[trigger] front[i], prefix) is Some;
        lemma_only_value(front, prefix, value, i);
    } else {
        assert(k == last) by {
            if k < last {
                assert(front[k] == all[k]);
            }
        }
        lemma_no_value(front, prefix);
    }
    assert(all.filter_map(read) =~= if setting(all[last], prefix) is Some {
        front.filter_map(read).push(value)
    } else {
        front.filter_map(read)
    });
}

proof fn lemma_no_value(all: Seq<Seq<char>>, prefix: Seq<char>)
    requires
        forall|i: int| 0 <= i < all.len() ==> setting(#[trigger] all[i], prefix) is None,
    ensures
        all.filter_map(|line: Seq<char>| setting(line, prefix)).len() == 0,
    decreases all.len(),
{
    if all.len() > 0 {
        let front = all.drop_last();
        assert forall|i: int| 0 <= i < front.len() implies setting(
            #[trigger] front[i],
            prefix,
        ) is None by {
            assert(front[i] == all[i]);
        }
        lemma_no_value(front, prefix);
        assert(setting(all[all.len() - 1], prefix) is None);
    }
}

/// The path that a file dialog printed, if the user chose one.
pub fn browsed_path(output: &[u8]) -> (r: Option<String>)
    ensures
        match r {
            Some(path) => path@.len() > 0 && path@ == trimmed(lossy_utf8_text(output@)),
            None => trimmed(lossy_utf8_text(output@)).len() == 0,
        },
        valid_utf8(output@) ==> match r {
            Some(path) => path@.len() > 0 && path@ == trimmed(decode_utf8(output@)),
            None => trimmed(decode_utf8(output@)).len() == 0,
        },
{
    let text = decode_utf8_lossily(output);
    printed_path(text.as_str())
}

/// The path in the text that a file dialog printed, if there is one.
pub fn printed_path(text: &str) -> (r: Option<String>)
    ensures
        match r {
            Some(path) => path@.len() > 0 && path@ == trimmed(text@),
            None => trimmed(text@).len() == 0,
        },
{
    let chars = chars_of(text);
    let path = trim(chars.as_slice());
    if path.len() == 0 {
        None
    } else {
        Some(string_of(path))
    }
}

/// What is shown as connected monitors, and whether their numbers may differ from those of
/// `mstsc`: the `first` finding, else the monitors found `again`, if any.
pub fn shown_monitors(
    first: Result<(Vec<LiveMonitor>, bool), String>,
    again: Result<Vec<LiveMonitor>, String>,
) -> (r: (Vec<LiveMonitor>, bool))
    ensures
        match first {
            Ok(found) => r == found,
            Err(_) => r.1 && (match again {
                Ok(monitors) => r.0 == monitors,
                Err(_) => r.0@.len() == 0,
            }),
        },
{
    match first {
        Ok(found) => found,
        Err(_) => match again {
            Ok(monitors) => (monitors, true),
            Err(_) => (Vec::new(), true),
        },
    }
}

} // verus!
