//! Changes to the saved configuration.
use vstd::prelude::*;

use crate::config::{AppConfig, DisplayProfile, HostEntry, MonitorDef};
use crate::detect::{are_definitions_of, auto_detect_defs, by_position};
use crate::monitor::LiveMonitor;
use crate::table::Table;
use crate::text::same_text;

verus! {

/// The index of the first host with the identifier `id`, or the number of hosts where there is
/// none.
pub open spec fn host_index(hosts: Seq<HostEntry>, id: Seq<char>) -> int
    decreases hosts.len(),
{
    if hosts.len() == 0 || hosts[0].id@ == id {
        0
    } else {
        1 + host_index(hosts.skip(1), id)
    }
}

/// Some host has the identifier `id`.
pub open spec fn has_host(hosts: Seq<HostEntry>, id: Seq<char>) -> bool {
    host_index(hosts, id) < hosts.len()
}

/// The hosts with `host` in the place of the first one with its identifier, or behind all others.
pub open spec fn with_host(hosts: Seq<HostEntry>, host: HostEntry) -> Seq<HostEntry> {
    if has_host(hosts, host.id@) {
        hosts.update(host_index(hosts, host.id@), host)
    } else {
        hosts.push(host)
    }
}

/// The host has another identifier than `id`.
pub open spec fn other_than(id: Seq<char>) -> spec_fn(HostEntry) -> bool {
    |h: HostEntry| h.id@ != id
}

/// The hosts without those with the identifier `id`, in their order.
pub open spec fn without_host(hosts: Seq<HostEntry>, id: Seq<char>) -> Seq<HostEntry> {
    hosts.filter(other_than(id))
}

pub(crate) proof fn lemma_host_index(hosts: Seq<HostEntry>, id: Seq<char>)
    ensures
        0 <= host_index(hosts, id) <= hosts.len(),
        forall|k: int| 0 <= k < host_index(hosts, id) ==> (#[trigger] hosts[k]).id@ != id,
        host_index(hosts, id) < hosts.len() ==> hosts[host_index(hosts, id)].id@ == id,
    decreases hosts.len(),
{
    if hosts.len() > 0 && hosts[0].id@ != id {
        let rest = hosts.skip(1);
        lemma_host_index(rest, id);
        assert forall|k: int| 0 <= k < host_index(hosts, id) implies (#[trigger] hosts[k]).id@
            != id by {
            if k > 0 {
                assert(rest[k - 1] == hosts[k]);
            }
        }
        if host_index(hosts, id) < hosts.len() {
            assert(rest[host_index(rest, id)] == hosts[host_index(hosts, id)]);
        }
    }
}

pub(crate) proof fn lemma_host_index_is(hosts: Seq<HostEntry>, id: Seq<char>, i: int)
    requires
        0 <= i <= hosts.len(),
        forall|k: int| 0 <= k < i ==> (#[trigger] hosts[k]).id@ != id,
        i < hosts.len() ==> hosts[i].id@ == id,
    ensures
        host_index(hosts, id) == i,
{
    lemma_host_index(hosts, id);
    let j = host_index(hosts, id);
    if j < i {
        assert(hosts[j].id@ != id);
    }
    if i < j {
        assert(hosts[i].id@ != id);
    }
}

/// Finds the first host with the identifier `id`.
pub fn find_host(hosts: &[HostEntry], id: &str) -> (r: Option<usize>)
    ensures
        match r {
            Some(i) => has_host(hosts@, id@) && i == host_index(hosts@, id@),
            None => !has_host(hosts@, id@),
        },
        match r {
            Some(i) => i < hosts@.len() && hosts@[i as int].id@ == id@ && forall|j: int|
                0 <= j < i ==> (#[trigger] hosts@[j]).id@ != id@,
            None => forall|j: int| 0 <= j < hosts@.len() ==> (#[trigger] hosts@[j]).id@ != id@,
        },
{
    let n: usize = hosts.len();
    let mut i: usize = 0;
    while i < n
        invariant
            n == hosts@.len(),
            i <= n,
            forall|k: int| 0 <= k < i ==> (#[trigger] hosts@[k]).id@ != id@,
        decreases n - i,
    {
        if same_text(hosts[i].id.as_str(), id) {
            proof {
                lemma_host_index_is(hosts@, id@, i as int);
            }
            return Some(i);
        }
        i = i + 1;
    }
    proof {
        lemma_host_index_is(hosts@, id@, n as int);
    }
    None
}

impl AppConfig {
    /// Replaces all monitor definitions.
    pub fn save_monitors(&mut self, monitors: Table<MonitorDef>)
        ensures
            final(self).monitors == monitors,
            final(self).profiles == old(self).profiles,
            final(self).hosts == old(self).hosts,
            final(self).language == old(self).language,
    {
        self.monitors = monitors;
    }

    /// Replaces all monitor definitions by those of the monitors connected now. Where these could
    /// not be found out, nothing changes.
    pub fn auto_detect_monitors(&mut self, live: Result<Vec<LiveMonitor>, String>) -> (r: Result<
        (),
        String,
    >)
        ensures
            match live {
                Ok(live) => r == Ok::<(), String>(()) && are_definitions_of(
                    final(self).monitors@,
                    by_position(live@),
                ),
                Err(e) => r == Err::<(), String>(e) && final(self).monitors == old(self).monitors,
            },
            final(self).profiles == old(self).profiles,
            final(self).hosts == old(self).hosts,
            final(self).language == old(self).language,
    {
        match live {
            Ok(live) => {
                self.monitors = auto_detect_defs(live.as_slice());
                Ok(())
            },
            Err(e) => Err(e),
        }
    }

    /// Adds a profile, or replaces the one with its identifier.
    pub fn save_profile(&mut self, id: String, profile: DisplayProfile)
        ensures
            final(self).profiles@ == old(self).profiles@.insert(id@, profile),
            final(self).monitors == old(self).monitors,
            final(self).hosts == old(self).hosts,
            final(self).language == old(self).language,
    {
        self.profiles.insert(id, profile);
    }

    /// Removes a profile.
    pub fn delete_profile(&mut self, id: &str)
        ensures
            final(self).profiles@ == old(self).profiles@.remove(id@),
            final(self).monitors == old(self).monitors,
            final(self).hosts == old(self).hosts,
            final(self).language == old(self).language,
    {
        self.profiles.remove(id);
    }

    /// Adds a host behind the others, or replaces the one with its identifier in its place.
    pub fn save_host(&mut self, host: HostEntry)
        ensures
            final(self).hosts@ == with_host(old(self).hosts@, host),
            (forall|j: int|
                0 <= j < old(self).hosts@.len() ==> (#[trigger] old(self).hosts@[j]).id@
                    != host.id@) ==> final(self).hosts@ == old(self).hosts@.push(host),
            forall|i: int|
                0 <= i < old(self).hosts@.len() && (#[trigger] old(self).hosts@[i]).id@ == host.id@
                    && (forall|j: int|
                    0 <= j < i ==> (#[trigger] old(self).hosts@[j]).id@ != host.id@)
                    ==> final(self).hosts@ == old(self).hosts@.update(i, host),
            final(self).monitors == old(self).monitors,
            final(self).profiles == old(self).profiles,
            final(self).language == old(self).language,
    {
        match find_host(self.hosts.as_slice(), host.id.as_str()) {
            Some(i) => {
                self.hosts.set(i, host);
            },
            None => {
                self.hosts.push(host);
            },
        }
    }

    /// Removes every host with the identifier `id`.
    pub fn delete_host(&mut self, id: &str)
        ensures
            final(self).hosts@ == without_host(old(self).hosts@, id@),
            final(self).hosts@ == old(self).hosts@.filter(|h: HostEntry| h.id@ != id@),
            final(self).monitors == old(self).monitors,
            final(self).profiles == old(self).profiles,
            final(self).language == old(self).language,
    {
        let ghost before = self.hosts@;
        let ghost keep = other_than(id@);
        let n: usize = self.hosts.len();
        let mut kept: usize = 0;
        let mut seen: usize = 0;
        proof {
            reveal(Seq::filter);
            assert(before.take(0).filter(keep) =~= seq![]);
            assert(before.skip(0) =~= before);
            assert(self.hosts@ =~= before.take(0).filter(keep) + before.skip(0));
        }
        while seen < n
            invariant
                n == before.len(),
                seen <= n,
                keep == other_than(id@),
                kept == before.take(seen as int).filter(keep).len(),
                self.hosts@ == before.take(seen as int).filter(keep) + before.skip(seen as int),
                self.monitors == old(self).monitors,
                self.profiles == old(self).profiles,
                self.language == old(self).language,
            decreases n - seen,
        {
            let ghost front = before.take(seen as int).filter(keep);
            let ghost h = before[seen as int];
            assert(self.hosts@[kept as int] == h);
            proof {
                reveal(Seq::filter);
                assert(before.take(seen + 1).drop_last() =~= before.take(seen as int));
                assert(before.take(seen + 1).last() == h);
            }
            if same_text(self.hosts[kept].id.as_str(), id) {
                let _ = self.hosts.remove(kept);
                assert(self.hosts@ =~= front + before.skip(seen + 1));
            } else {
                kept = kept + 1;
                assert(self.hosts@ =~= front.push(h) + before.skip(seen + 1));
            }
            seen = seen + 1;
        }
        assert(before.take(n as int) =~= before);
        assert(self.hosts@ =~= before.filter(keep));
        assert(keep =~= (|h: HostEntry| h.id@ != id@));
    }

    /// Replaces the whole configuration.
    pub fn save_config(&mut self, new_config: AppConfig)
        ensures
            *final(self) == new_config,
    {
        *self = new_config;
    }
}

/// The identifiers of the hosts are pairwise different.
pub open spec fn ids_differ(hosts: Seq<HostEntry>) -> bool {
    forall|i: int, j: int|
        0 <= i < j < hosts.len() ==> (#[trigger] hosts[i]).id@ != (#[trigger] hosts[j]).id@
}

/// A saved host is found under its identifier, as it was saved.
pub proof fn saved_host_is_found(hosts: Seq<HostEntry>, host: HostEntry)
    ensures
        has_host(with_host(hosts, host), host.id@),
        with_host(hosts, host)[host_index(with_host(hosts, host), host.id@)] == host,
{
    lemma_host_index(hosts, host.id@);
    let i = host_index(hosts, host.id@);
    let after = with_host(hosts, host);
    assert forall|k: int| 0 <= k < i implies (#[trigger] after[k]).id@ != host.id@ by {
        assert(after[k] == hosts[k]);
    }
    lemma_host_index_is(after, host.id@, i);
}

/// Saving a host moves no other host and changes none.
pub proof fn saving_keeps_other_hosts(hosts: Seq<HostEntry>, host: HostEntry, i: int)
    requires
        0 <= i < hosts.len(),
        hosts[i].id@ != host.id@,
    ensures
        i < with_host(hosts, host).len(),
        with_host(hosts, host)[i] == hosts[i],
{
    lemma_host_index(hosts, host.id@);
}

/// Saving a host twice leaves what the second saving alone would leave.
pub proof fn saving_again_replaces(hosts: Seq<HostEntry>, first: HostEntry, second: HostEntry)
    requires
        first.id@ == second.id@,
    ensures
        with_host(with_host(hosts, first), second) == with_host(hosts, second),
{
    lemma_host_index(hosts, first.id@);
    let i = host_index(hosts, first.id@);
    let after = with_host(hosts, first);
    assert forall|k: int| 0 <= k < i implies (#[trigger] after[k]).id@ != first.id@ by {
        assert(after[k] == hosts[k]);
    }
    lemma_host_index_is(after, first.id@, i);
    assert(with_host(after, second) =~= with_host(hosts, second));
}

/// Where identifiers are pairwise different, saving and removing hosts keeps them so.
pub proof fn ids_stay_different(hosts: Seq<HostEntry>, host: HostEntry, id: Seq<char>)
    requires
        ids_differ(hosts),
    ensures
        ids_differ(with_host(hosts, host)),
        ids_differ(without_host(hosts, id)),
{
    lemma_host_index(hosts, host.id@);
    let saved = with_host(hosts, host);
    let at = host_index(hosts, host.id@);
    assert forall|i: int, j: int| 0 <= i < j < saved.len() implies (#[trigger] saved[i]).id@ != (
    #[trigger] saved[j]).id@ by {
        if i != at && j != at {
            assert(hosts[i].id@ != hosts[j].id@);
        } else if at < hosts.len() {
            assert(hosts[i].id@ != hosts[j].id@);
        } else {
            assert(hosts[i].id@ != host.id@);
        }
    }
    lemma_filter_keeps_order(hosts, id);
}

proof fn lemma_filter_keeps_order(hosts: Seq<HostEntry>, id: Seq<char>)
    requires
        ids_differ(hosts),
    ensures
        ids_differ(without_host(hosts, id)),
        forall|k: int|
            0 <= k < without_host(hosts, id).len() ==> hosts.contains(
                #[trigger] without_host(hosts, id)[k],
            ),
    decreases hosts.len(),
{
    reveal(Seq::filter);
    if hosts.len() > 0 {
        let front = hosts.drop_last();
        assert(ids_differ(front)) by {
            assert forall|i: int, j: int| 0 <= i < j < front.len() implies (#[trigger] front[i]).id@
                != (#[trigger] front[j]).id@ by {
                assert(front[i] == hosts[i] && front[j] == hosts[j]);
            }
        }
        lemma_filter_keeps_order(front, id);
        let inner = without_host(front, id);
        let all = without_host(hosts, id);
        let last = hosts.last();
        assert forall|k: int| 0 <= k < all.len() implies hosts.contains(#[trigger] all[k]) by {
            if k < inner.len() {
                assert(all[k] == inner[k]);
                let b = choose|b: int| 0 <= b < front.len() && front[b] == inner[k];
                assert(hosts[b] == all[k]);
            } else {
                assert(hosts[hosts.len() - 1] == all[k]);
            }
        }
        assert forall|i: int, j: int| 0 <= i < j < all.len() implies (#[trigger] all[i]).id@ != (
        #[trigger] all[j]).id@ by {
            assert(all[i] == inner[i]);
            if j < inner.len() {
                assert(all[j] == inner[j]);
            } else {
                let b = choose|b: int| 0 <= b < front.len() && front[b] == inner[i];
                assert(hosts[b].id@ != hosts[hosts.len() - 1].id@);
            }
        }
    }
}

/// A removed host is not found any more.
pub proof fn deleted_host_is_gone(hosts: Seq<HostEntry>, id: Seq<char>)
    ensures
        !has_host(without_host(hosts, id), id),
{
    let after = without_host(hosts, id);
    let keep = other_than(id);
    assert forall|k: int| 0 <= k < after.len() implies (#[trigger] after[k]).id@ != id by {
        hosts.lemma_filter_pred(keep, k);
    }
    lemma_host_index_is(after, id, after.len() as int);
}

/// Removing a host keeps every host with another identifier.
pub proof fn deleting_keeps_other_hosts(hosts: Seq<HostEntry>, id: Seq<char>, i: int)
    requires
        0 <= i < hosts.len(),
        hosts[i].id@ != id,
    ensures
        without_host(hosts, id).contains(hosts[i]),
{
    let keep = other_than(id);
    hosts.lemma_filter_contains(keep, i);
}

} // verus!
