//! What a .rdp file says of its connection.
use vstd::prelude::*;
use vstd::slice::slice_subrange;
use vstd::string::StringExecFns;

use crate::decode::{decodable, file_text, holds_text, read_rdp_file};
use crate::number::{
    decimal, decimal_reads_back, is_digit, read_unsigned, unsigned_reads_back, unsigned_value,
};
use crate::text::{
    chars_of, first_of, has_char, index_of, is_white_space, lemma_filter_map_sum, lemma_first_of,
    lemma_first_of_is, lemma_trim_nothing, lines, lines_end_at_feeds, lines_of, starts_with,
    string_of, text_result, texts, trim, trimmed, views,
};

verus! {

/// What follows `prefix` in the trimmed line, if the line begins with it.
pub open spec fn setting(line: Seq<char>, prefix: Seq<char>) -> Option<Seq<char>> {
    if prefix.is_prefix_of(trimmed(line)) {
        Some(trimmed(line).skip(prefix.len() as int))
    } else {
        None
    }
}

/// The values of the lines of a text that begin with `prefix`, in their order.
pub open spec fn settings(content: Seq<char>, prefix: Seq<char>) -> Seq<Seq<char>> {
    lines(content).filter_map(|line: Seq<char>| setting(line, prefix))
}

/// The addresses that a .rdp file states.
pub open spec fn addresses(content: Seq<char>) -> Seq<Seq<char>> {
    settings(content, "full address:s:"@)
}

/// The user names that a .rdp file states.
pub open spec fn usernames(content: Seq<char>) -> Seq<Seq<char>> {
    settings(content, "username:s:"@).filter(|user: Seq<char>| user.len() > 0)
}

/// The host of an address: what precedes its first colon.
pub open spec fn address_host(address: Seq<char>) -> Seq<char> {
    address.take(first_of(address, ':'))
}

/// The port of an address with a colon: the number behind its first colon, or 3389 where that is
/// no port number.
pub open spec fn address_port(address: Seq<char>) -> u16 {
    match unsigned_value(address.skip(first_of(address, ':') + 1), u16::MAX as nat) {
        Some(port) => port as u16,
        None => 3389,
    }
}

/// The host that a .rdp file connects to: that of its first address.
pub open spec fn rdp_host(path: Seq<char>, content: Seq<char>) -> Result<Seq<char>, Seq<char>> {
    if addresses(content).len() > 0 {
        Ok(address_host(addresses(content)[0]))
    } else {
        Err("No 'full address' found in "@ + path)
    }
}

/// Looks for `prefix` at the beginning of a trimmed line.
fn strip_prefix<'a>(line: &'a [char], prefix: &str) -> (r: Option<&'a [char]>)
    ensures
        match r {
            Some(rest) => setting(line@, prefix@) == Some(rest@),
            None => setting(line@, prefix@) is None,
        },
{
    let prefix = chars_of(prefix);
    let t = trim(line);
    if starts_with(t, prefix.as_slice()) {
        let rest = slice_subrange(t, prefix.len(), t.len());
        assert(rest@ == t@.skip(prefix@.len() as int));
        Some(rest)
    } else {
        None
    }
}

/// The values of the lines of a text that begin with `prefix`.
fn settings_of(content: &str, prefix: &str) -> (r: Vec<String>)
    ensures
        texts(r@) == settings(content@, prefix@),
{
    let chars = chars_of(content);
    let all = lines_of(chars.as_slice());
    let ghost read = |line: Seq<char>| setting(line, prefix@);
    let ghost spec_lines = lines(content@);
    let mut r: Vec<String> = Vec::new();
    let n: usize = all.len();
    let mut i: usize = 0;
    assert(views(all@).len() == n);
    assert(spec_lines.take(0) =~= seq![]);
    assert(texts(r@) =~= seq![]);
    while i < n
        invariant
            n == all@.len(),
            i <= n,
            views(all@) == spec_lines,
            read == (|line: Seq<char>| setting(line, prefix@)),
            texts(r@) == spec_lines.take(i as int).filter_map(read),
        decreases n - i,
    {
        assert(views(all@)[i as int] == all@[i as int]@);
        proof {
            spec_lines.lemma_filter_map_take_succ(read, i as int);
        }
        let ghost before = r@;
        if let Some(rest) = strip_prefix(all[i], prefix) {
            r.push(string_of(rest));
            assert(texts(r@) =~= texts(before).push(rest@));
        }
        i = i + 1;
        assert(texts(r@) =~= spec_lines.take(i as int).filter_map(read));
    }
    assert(spec_lines.take(n as int) =~= spec_lines);
    r
}

/// The host of an address.
fn host_of_address(address: &str) -> (r: String)
    ensures
        r@ == address_host(address@),
{
    let chars = chars_of(address);
    let i: usize = index_of(chars.as_slice(), ':');
    let host = slice_subrange(chars.as_slice(), 0, i);
    assert(host@ == address@.take(i as int));
    string_of(host)
}

/// Reads the host that the .rdp file at `path` connects to.
pub fn read_rdp_host(path: &str, raw: Result<Vec<u8>, String>) -> (r: Result<String, String>)
    requires
        decodable(raw),
    ensures
        text_result(r) == (match file_text(path@, raw) {
            Ok(content) => rdp_host(path@, content),
            Err(e) => Err(e),
        }),
        raw matches Ok(raw) ==> forall|content: Seq<char>| #[trigger]
            holds_text(raw@, content) ==> text_result(r) == rdp_host(path@, content),
{
    match read_rdp_file(path, raw) {
        Ok(content) => host_in(path, content.as_str()),
        Err(e) => Err(e),
    }
}

/// Reads the host out of the text of the .rdp file at `path`.
pub fn host_in(path: &str, content: &str) -> (r: Result<String, String>)
    ensures
        text_result(r) == rdp_host(path@, content@),
{
    let found = settings_of(content, "full address:s:");
    assert(texts(found@).len() == found@.len());
    if found.len() > 0 {
        assert(texts(found@)[0] == found@[0]@);
        Ok(host_of_address(found[0].as_str()))
    } else {
        let mut message = "No 'full address' found in ".to_string();
        message.append(path);
        Err(message)
    }
}

/// What a .rdp file says about its connection.
#[derive(Debug, Clone)]
pub struct RdpInfo {
    pub host: String,
    pub username: Option<String>,
    pub port: u16,
    pub path: String,
}

/// The host of the last address, empty where there is none.
pub open spec fn info_host(content: Seq<char>) -> Seq<char> {
    if addresses(content).len() > 0 {
        address_host(addresses(content).last())
    } else {
        seq![]
    }
}

/// The port of the last address that states one, 3389 where none does.
pub open spec fn info_port(content: Seq<char>) -> u16 {
    let stating = addresses(content).filter(|address: Seq<char>| address.contains(':'));
    if stating.len() > 0 {
        address_port(stating.last())
    } else {
        3389
    }
}

/// The last user name that is not empty.
pub open spec fn info_username(content: Seq<char>) -> Option<Seq<char>> {
    if usernames(content).len() > 0 {
        Some(usernames(content).last())
    } else {
        None
    }
}

/// `info` is what the text of the .rdp file at `path` says.
pub open spec fn is_info(info: RdpInfo, path: Seq<char>, content: Seq<char>) -> bool {
    &&& info.host@ == info_host(content)
    &&& info.port == info_port(content)
    &&& info.path@ == path
    &&& match info.username {
        Some(user) => info_username(content) == Some(user@),
        None => info_username(content) is None,
    }
}

/// `r` is what the text of the .rdp file at `path` says, or the error for a text that names no
/// host.
pub open spec fn is_info_result(
    r: Result<RdpInfo, String>,
    path: Seq<char>,
    content: Seq<char>,
) -> bool {
    match r {
        Ok(info) => info_host(content).len() > 0 && is_info(info, path, content),
        Err(e) => info_host(content).len() == 0 && e@ == "No host found in "@ + path,
    }
}

/// The port of an address, if it has a colon.
fn port_of_address(address: &str) -> (r: Option<u16>)
    ensures
        r == (if address@.contains(':') {
            Some(address_port(address@))
        } else {
            None
        }),
{
    let chars = chars_of(address);
    if !has_char(chars.as_slice(), ':') {
        return None;
    }
    let i: usize = index_of(chars.as_slice(), ':');
    proof {
        lemma_first_of(address@, ':');
        let k = choose|k: int| 0 <= k < address@.len() && address@[k] == ':';
        assert(address@[k] == ':');
    }
    let rest = slice_subrange(chars.as_slice(), i + 1, chars.len());
    assert(rest@ == address@.skip(i + 1));
    match read_unsigned(rest, 65535) {
        Some(port) => Some(port as u16),
        None => Some(3389),
    }
}

/// What a filter keeps of a sequence that ends with `x`.
proof fn lemma_filter_push(s: Seq<Seq<char>>, x: Seq<char>, keep: spec_fn(Seq<char>) -> bool)
    ensures
        s.push(x).filter(keep) == if keep(x) {
            s.filter(keep).push(x)
        } else {
            s.filter(keep)
        },
{
    reveal(Seq::filter);
    assert(s.push(x).drop_last() =~= s);
}

/// The port of the last of some addresses that states one.
fn last_port(found: &[String]) -> (r: u16)
    ensures
        ({
            let stating = texts(found@).filter(|address: Seq<char>| address.contains(':'));
            r == if stating.len() > 0 {
                address_port(stating.last())
            } else {
                3389
            }
        }),
{
    let ghost all = texts(found@);
    let ghost keep = |address: Seq<char>| address.contains(':');
    let mut port: u16 = 3389;
    let n: usize = found.len();
    let mut i: usize = 0;
    proof {
        reveal(Seq::filter);
        assert(all.take(0) =~= seq![]);
    }
    while i < n
        invariant
            n == found@.len(),
            i <= n,
            all == texts(found@),
            keep == (|address: Seq<char>| address.contains(':')),
            port == ({
                let stating = all.take(i as int).filter(keep);
                if stating.len() > 0 {
                    address_port(stating.last())
                } else {
                    3389
                }
            }),
        decreases n - i,
    {
        proof {
            assert(all[i as int] == found@[i as int]@);
            assert(all.take(i + 1) =~= all.take(i as int).push(all[i as int]));
            lemma_filter_push(all.take(i as int), all[i as int], keep);
        }
        if let Some(p) = port_of_address(found[i].as_str()) {
            port = p;
        }
        i = i + 1;
    }
    assert(all.take(n as int) =~= all);
    port
}

/// The last of some texts that is not empty.
fn last_nonempty(found: &[String]) -> (r: Option<String>)
    ensures
        ({
            let kept = texts(found@).filter(|user: Seq<char>| user.len() > 0);
            match r {
                Some(user) => kept.len() > 0 && user@ == kept.last(),
                None => kept.len() == 0,
            }
        }),
{
    let ghost all = texts(found@);
    let ghost keep = |user: Seq<char>| user.len() > 0;
    let mut last: Option<String> = None;
    let n: usize = found.len();
    let mut i: usize = 0;
    proof {
        reveal(Seq::filter);
        assert(all.take(0) =~= seq![]);
    }
    while i < n
        invariant
            n == found@.len(),
            i <= n,
            all == texts(found@),
            keep == (|user: Seq<char>| user.len() > 0),
            ({
                let kept = all.take(i as int).filter(keep);
                match last {
                    Some(user) => kept.len() > 0 && user@ == kept.last(),
                    None => kept.len() == 0,
                }
            }),
        decreases n - i,
    {
        proof {
            assert(all[i as int] == found@[i as int]@);
            assert(all.take(i + 1) =~= all.take(i as int).push(all[i as int]));
            lemma_filter_push(all.take(i as int), all[i as int], keep);
        }
        if !found[i].as_str().is_empty() {
            last = Some(found[i].clone());
        }
        i = i + 1;
    }
    assert(all.take(n as int) =~= all);
    last
}

/// Reads host, user name and port of the .rdp file at `path`.
pub fn read_rdp_info(path: &str, raw: Result<Vec<u8>, String>) -> (r: Result<RdpInfo, String>)
    requires
        decodable(raw),
    ensures
        match file_text(path@, raw) {
            Ok(content) => is_info_result(r, path@, content),
            Err(fault) => r matches Err(e) && e@ == fault,
        },
        raw matches Ok(raw) ==> forall|content: Seq<char>| #[trigger]
            holds_text(raw@, content) ==> is_info_result(r, path@, content),
        file_text(path@, raw) matches Ok(content) ==> match r {
                Ok(info) => {
                    &&& info.host@.len() > 0
                    &&& info.host@ == info_host(content)
                    &&& info.port == info_port(content)
                    &&& info.path@ == path@
                    &&& info.username is Some <==> info_username(content) is Some
                    &&& info.username matches Some(user) ==> info_username(content) == Some(user@)
                },
                Err(e) => info_host(content).len() == 0 && e@ == "No host found in "@ + path@,
            },
{
    match read_rdp_file(path, raw) {
        Ok(content) => info_in(path, content.as_str()),
        Err(e) => Err(e),
    }
}

/// Reads host, user name and port out of the text of the .rdp file at `path`.
pub fn info_in(path: &str, content: &str) -> (r: Result<RdpInfo, String>)
    ensures
        is_info_result(r, path@, content@),
        ({
            let content = content@;
            match r {
                Ok(info) => {
                    &&& info.host@.len() > 0
                    &&& info.host@ == info_host(content)
                    &&& info.port == info_port(content)
                    &&& info.path@ == path@
                    &&& info.username is Some <==> info_username(content) is Some
                    &&& info.username matches Some(user) ==> info_username(content) == Some(user@)
                },
                Err(e) => info_host(content).len() == 0 && e@ == "No host found in "@ + path@,
            }
        }),
{
    let found = settings_of(content, "full address:s:");
    let users = settings_of(content, "username:s:");
    let n: usize = found.len();
    assert(texts(found@).len() == n);
    let host = if n > 0 {
        assert(texts(found@).last() == found@[n - 1]@);
        host_of_address(found[n - 1].as_str())
    } else {
        String::new()
    };
    assert(host@ =~= info_host(content@));
    if host.as_str().is_empty() {
        let mut message = "No host found in ".to_string();
        message.append(path);
        return Err(message);
    }
    Ok(
        RdpInfo {
            host,
            username: last_nonempty(users.as_slice()),
            port: last_port(found.as_slice()),
            path: path.to_string(),
        },
    )
}

proof fn lemma_filter_sum(
    a: Seq<Seq<char>>,
    b: Seq<Seq<char>>,
    keep: spec_fn(Seq<char>) -> bool,
)
    ensures
        (a + b).filter(keep) == a.filter(keep) + b.filter(keep),
    decreases b.len(),
{
    reveal(Seq::filter);
    if b.len() == 0 {
        assert(a + b =~= a);
        assert(a.filter(keep) + b.filter(keep) =~= a.filter(keep));
    } else {
        lemma_filter_sum(a, b.drop_last(), keep);
        assert((a + b).drop_last() =~= a + b.drop_last());
        assert((a + b).last() == b.last());
        assert((a + b).filter(keep) =~= a.filter(keep) + b.filter(keep));
    }
}

/// Lines of which each gives no value, or one that the filter drops, give none.
proof fn lemma_nothing_kept(
    all: Seq<Seq<char>>,
    prefix: Seq<char>,
    keep: spec_fn(Seq<char>) -> bool,
)
    requires
        forall|i: int|
            0 <= i < all.len() ==> !(prefix.is_prefix_of(trimmed(#[trigger] all[i])) && keep(
                trimmed(all[i]).skip(prefix.len() as int),
            )),
    ensures
        all.filter_map(|line: Seq<char>| setting(line, prefix)).filter(keep).len() == 0,
    decreases all.len(),
{
    reveal(Seq::filter);
    let read = |line: Seq<char>| setting(line, prefix);
    if all.len() > 0 {
        let front = all.drop_last();
        assert forall|i: int| 0 <= i < front.len() implies !(prefix.is_prefix_of(
            trimmed(#[trigger] front[i]),
        ) && keep(trimmed(front[i]).skip(prefix.len() as int))) by {
            assert(front[i] == all[i]);
        }
        lemma_nothing_kept(front, prefix, keep);
        let last = all[all.len() - 1];
        assert(all.last() == last);
        let x = front.filter_map(read);
        if prefix.is_prefix_of(trimmed(last)) {
            let v = trimmed(last).skip(prefix.len() as int);
            assert(all.filter_map(read) =~= x.push(v));
            lemma_filter_push(x, v, keep);
        } else {
            assert(all.filter_map(read) =~= x);
        }
    }
}

/// The values around one line that states a setting.
proof fn lemma_settings_around(
    before: Seq<Seq<char>>,
    line: Seq<char>,
    after: Seq<Seq<char>>,
    prefix: Seq<char>,
    value: Seq<char>,
)
    requires
        trimmed(line) == prefix + value,
    ensures
        ({
            let read = |line: Seq<char>| setting(line, prefix);
            (before + seq![line] + after).filter_map(read) == before.filter_map(read) + seq![value]
                + after.filter_map(read)
        }),
{
    let read = |line: Seq<char>| setting(line, prefix);
    assert(prefix.is_prefix_of(prefix + value)) by {
        assert(prefix =~= (prefix + value).subrange(0, prefix.len() as int));
    }
    assert((prefix + value).skip(prefix.len() as int) =~= value);
    Seq::lemma_filter_map_singleton(line, read);
    lemma_filter_map_sum(before, seq![line], read);
    lemma_filter_map_sum(before + seq![line], after, read);
}

/// What an address says of its host: all that stands before its first colon, or all of it.
proof fn lemma_host_of_address(address: Seq<char>, host: Seq<char>, port: Seq<char>)
    requires
        !host.contains(':'),
        address == host || address == host + seq![':'] + port,
    ensures
        address_host(address) == host,
        address.contains(':') <==> address != host,
        address != host ==> address.skip(first_of(address, ':') + 1) == port,
{
    let n = host.len() as int;
    assert forall|k: int| 0 <= k < n implies address[k] != ':' by {
        assert(address[k] == host[k]);
    }
    if address != host {
        assert(address[n] == ':');
        assert(address.skip(n + 1) =~= port);
    }
    lemma_first_of_is(address, ':', n);
    assert(address.take(n) =~= host);
}

/// The host that a .rdp file connects to is, as it is written, what its first line with an address
/// states before the first colon of the address.
pub proof fn first_address_gives_the_host(
    path: Seq<char>,
    content: Seq<char>,
    before: Seq<Seq<char>>,
    line: Seq<char>,
    after: Seq<Seq<char>>,
    host: Seq<char>,
    port: Seq<char>,
)
    requires
        lines(content) == before + seq![line] + after,
        forall|i: int|
            0 <= i < before.len() ==> !"full address:s:"@.is_prefix_of(trimmed(#[trigger] before[i])),
        trimmed(line) == "full address:s:"@ + host || trimmed(line) == "full address:s:"@ + (host
            + seq![':'] + port),
        !host.contains(':'),
    ensures
        rdp_host(path, content) == Ok::<Seq<char>, Seq<char>>(host),
{
    let prefix = "full address:s:"@;
    let address = if trimmed(line) == prefix + host {
        host
    } else {
        host + seq![':'] + port
    };
    let all = |value: Seq<char>| true;
    lemma_settings_around(before, line, after, prefix, address);
    lemma_nothing_kept(before, prefix, all);
    let read = |line: Seq<char>| setting(line, prefix);
    lemma_keep_all(before.filter_map(read));
    assert(addresses(content)[0] == address);
    lemma_host_of_address(address, host, port);
}

proof fn lemma_keep_all(s: Seq<Seq<char>>)
    ensures
        s.filter(|value: Seq<char>| true) == s,
    decreases s.len(),
{
    reveal(Seq::filter);
    if s.len() > 0 {
        lemma_keep_all(s.drop_last());
        assert(s.drop_last().push(s.last()) =~= s);
    }
}

/// A file without a line that states an address names no host.
pub proof fn without_address_there_is_no_host(path: Seq<char>, content: Seq<char>)
    requires
        forall|i: int|
            0 <= i < lines(content).len() ==> !"full address:s:"@.is_prefix_of(
                trimmed(#[trigger] lines(content)[i]),
            ),
    ensures
        rdp_host(path, content) == Err::<Seq<char>, Seq<char>>(
            "No 'full address' found in "@ + path,
        ),
        info_host(content).len() == 0,
        info_port(content) == 3389,
{
    let prefix = "full address:s:"@;
    lemma_nothing_kept(lines(content), prefix, |value: Seq<char>| true);
    lemma_keep_all(addresses(content));
    reveal(Seq::filter);
}

/// The host of the connection data is, as it is written, what the last line with an address states
/// before the first colon of the address.
pub proof fn last_address_gives_the_info_host(
    content: Seq<char>,
    before: Seq<Seq<char>>,
    line: Seq<char>,
    after: Seq<Seq<char>>,
    host: Seq<char>,
    port: Seq<char>,
)
    requires
        lines(content) == before + seq![line] + after,
        forall|i: int|
            0 <= i < after.len() ==> !"full address:s:"@.is_prefix_of(trimmed(#[trigger] after[i])),
        trimmed(line) == "full address:s:"@ + host || trimmed(line) == "full address:s:"@ + (host
            + seq![':'] + port),
        !host.contains(':'),
    ensures
        info_host(content) == host,
{
    let prefix = "full address:s:"@;
    let address = if trimmed(line) == prefix + host {
        host
    } else {
        host + seq![':'] + port
    };
    lemma_settings_around(before, line, after, prefix, address);
    lemma_nothing_kept(after, prefix, |value: Seq<char>| true);
    let read = |line: Seq<char>| setting(line, prefix);
    lemma_keep_all(after.filter_map(read));
    assert(addresses(content).last() == address);
    lemma_host_of_address(address, host, port);
}

/// The port is the number behind the first colon of the last address that has one, and 3389 where
/// that is no number up to 65535.
pub proof fn last_port_is_taken(
    content: Seq<char>,
    before: Seq<Seq<char>>,
    line: Seq<char>,
    after: Seq<Seq<char>>,
    host: Seq<char>,
    port: Seq<char>,
)
    requires
        lines(content) == before + seq![line] + after,
        forall|i: int|
            0 <= i < after.len() ==> !("full address:s:"@.is_prefix_of(trimmed(#[trigger] after[i]))
                && trimmed(after[i]).skip("full address:s:"@.len() as int).contains(':')),
        trimmed(line) == "full address:s:"@ + (host + seq![':'] + port),
        !host.contains(':'),
    ensures
        info_port(content) as int == (match unsigned_value(port, 65535) {
            Some(value) => value as int,
            None => 3389,
        }),
{
    let prefix = "full address:s:"@;
    let address = host + seq![':'] + port;
    let keep = |address: Seq<char>| address.contains(':');
    let read = |line: Seq<char>| setting(line, prefix);
    lemma_settings_around(before, line, after, prefix, address);
    lemma_nothing_kept(after, prefix, keep);
    let x = before.filter_map(read);
    let z = after.filter_map(read);
    lemma_filter_sum(x + seq![address], z, keep);
    assert(address[host.len() as int] == ':');
    lemma_filter_push(x, address, keep);
    assert(x.push(address) =~= x + seq![address]);
    assert(addresses(content).filter(keep) =~= x.filter(keep).push(address));
    assert(address != host) by {
        assert(address.len() > host.len());
    }
    lemma_host_of_address(address, host, port);
}

/// Without an address that has a colon the port is 3389.
pub proof fn default_port(content: Seq<char>)
    requires
        forall|i: int|
            0 <= i < lines(content).len() ==> !("full address:s:"@.is_prefix_of(
                trimmed(#[trigger] lines(content)[i]),
            ) && trimmed(lines(content)[i]).skip("full address:s:"@.len() as int).contains(':')),
    ensures
        info_port(content) == 3389,
{
    lemma_nothing_kept(
        lines(content),
        "full address:s:"@,
        |address: Seq<char>| address.contains(':'),
    );
}

/// The user name is, as it is written, what the last line with one states, if it is not empty.
pub proof fn last_username_is_taken(
    content: Seq<char>,
    before: Seq<Seq<char>>,
    line: Seq<char>,
    after: Seq<Seq<char>>,
    user: Seq<char>,
)
    requires
        lines(content) == before + seq![line] + after,
        forall|i: int|
            0 <= i < after.len() ==> !("username:s:"@.is_prefix_of(trimmed(#[trigger] after[i]))
                && trimmed(after[i]).skip("username:s:"@.len() as int).len() > 0),
        trimmed(line) == "username:s:"@ + user,
        user.len() > 0,
    ensures
        info_username(content) == Some(user),
{
    let prefix = "username:s:"@;
    let keep = |user: Seq<char>| user.len() > 0;
    let read = |line: Seq<char>| setting(line, prefix);
    lemma_settings_around(before, line, after, prefix, user);
    lemma_nothing_kept(after, prefix, keep);
    let x = before.filter_map(read);
    let z = after.filter_map(read);
    lemma_filter_sum(x + seq![user], z, keep);
    lemma_filter_push(x, user, keep);
    assert(x.push(user) =~= x + seq![user]);
    assert(usernames(content) =~= x.filter(keep).push(user));
}

/// Without a user name that is not empty there is none.
pub proof fn no_username(content: Seq<char>)
    requires
        forall|i: int|
            0 <= i < lines(content).len() ==> !("username:s:"@.is_prefix_of(
                trimmed(#[trigger] lines(content)[i]),
            ) && trimmed(lines(content)[i]).skip("username:s:"@.len() as int).len() > 0),
    ensures
        info_username(content) is None,
{
    lemma_nothing_kept(lines(content), "username:s:"@, |user: Seq<char>| user.len() > 0);
}

/// A file that begins with the line `full address:s:host`, or with `full address:s:host:port`,
/// names that host, whatever characters but a colon it has; the same address alone gives the host
/// of the connection data too, and its port.
pub proof fn address_reads_back(
    path: Seq<char>,
    host: Seq<char>,
    port: nat,
    rest: Seq<char>,
)
    requires
        !host.contains(':'),
        !host.contains('\n'),
        host.len() > 0 ==> !is_white_space(host.last()),
        port <= 65535,
    ensures
        ({
            let plain = "full address:s:"@ + host;
            let ported = "full address:s:"@ + (host + seq![':'] + decimal(port));
            &&& rdp_host(path, plain + seq!['\n'] + rest) == Ok::<Seq<char>, Seq<char>>(host)
            &&& rdp_host(path, ported + seq!['\n'] + rest) == Ok::<Seq<char>, Seq<char>>(host)
            &&& info_host(plain) == host && info_port(plain) == 3389
            &&& info_host(ported) == host && info_port(ported) == port
        }),
{
    reveal_strlit("full address:s:");
    let prefix = "full address:s:"@;
    let none = Seq::<Seq<char>>::empty();
    let plain = prefix + host;
    let number = decimal(port);
    let address = host + seq![':'] + number;
    let ported = prefix + address;
    decimal_reads_back(port);
    unsigned_reads_back(port, 65535);
    assert(is_digit(number[number.len() - 1]));
    assert(plain[0] == 'f' && ported[0] == 'f');
    assert(plain.last() == if host.len() > 0 {
        host.last()
    } else {
        ':'
    });
    assert(ported.last() == number[number.len() - 1]);
    lemma_trim_nothing(plain);
    lemma_trim_nothing(ported);
    assert(!plain.contains('\n')) by {
        if plain.contains('\n') {
            let k = choose|k: int| 0 <= k < plain.len() && plain[k] == '\n';
            if k >= prefix.len() {
                assert(host[k - prefix.len()] == '\n');
            }
        }
    }
    assert(!ported.contains('\n')) by {
        if ported.contains('\n') {
            let k = choose|k: int| 0 <= k < ported.len() && ported[k] == '\n';
            let n = (prefix.len() + host.len()) as int;
            if prefix.len() <= k < n {
                assert(host[k - prefix.len()] == '\n');
            } else if k > n {
                assert(number[k - n - 1] == '\n');
                assert(is_digit(number[k - n - 1]));
            }
        }
    }
    lines_end_at_feeds(plain, rest);
    lines_end_at_feeds(ported, rest);
    assert(plain.last() != '\r' && ported.last() != '\r');
    let text = plain + seq!['\n'] + rest;
    assert(lines(text) =~= none + seq![plain] + lines(rest));
    first_address_gives_the_host(path, text, none, plain, lines(rest), host, number);
    let text = ported + seq!['\n'] + rest;
    assert(lines(text) =~= none + seq![ported] + lines(rest));
    first_address_gives_the_host(path, text, none, ported, lines(rest), host, number);
    assert(lines(plain) =~= none + seq![plain] + none);
    assert(lines(ported) =~= none + seq![ported] + none);
    last_address_gives_the_info_host(plain, none, plain, none, host, number);
    last_address_gives_the_info_host(ported, none, ported, none, host, number);
    last_port_is_taken(ported, none, ported, none, host, number);
    assert(trimmed(lines(plain)[0]).skip(prefix.len() as int) =~= host);
    default_port(plain);
}

} // verus!
