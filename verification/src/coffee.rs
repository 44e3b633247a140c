//! The engine: one manager owning the remote registry, the plugin
//! index and the configuration file, with the lifecycle pipelines.
//!
//! External collaborators (fetch, build, config write, payment) are
//! injected as outcome values: the caller performs the outside work and
//! hands the engine what happened, so each pipeline's contract states
//! the exact state after the call for every collaborator behaviour.

use vstd::prelude::*;

use crate::config::{
    ConfigFile, config_clean, directive_line, directive_of, has_block, insert_directive_spec,
    lemma_directive_not_marker, lemma_insert_directive, lemma_insert_directive_clean,
    lemma_no_block_no_directive, lemma_remove_directive_clean, lemma_replace_block_clean,
    lemma_strip_block_clean, remove_directive_spec, replace_block_spec, strip_block_spec,
};
use crate::config::{directive_once, end_of, start_of};
use crate::errors::CoffeeError;
use crate::nurse::{
    SanityReport, artifact_requests, directives_of, holds_line, is_sane, keep_known,
    lemma_holds_line_grow, lemma_nurse_convergence, line_is_active_directive, repair_model,
    repair_requests, reports_drift, reports_missing_artifact, reports_missing_tree,
    reports_orphan_directive, reports_orphan_plugin, tree_requests,
};
use crate::types::{
    BuildOutcome, DescModel, FetchOutcome, InstallMode, InstalledPlugin, LanguageHint,
    PluginDescriptor, PluginModel, RefreshOutcome, Remote, RemoteModel, TipOutcome,
    UpgradeOutcome, UpgradeStatus, advertises, desc_find, desc_has, desc_views, has_remote,
    is_installed, lemma_desc_find, lemma_desc_find_is, lemma_plugin_find, lemma_plugin_find_is,
    lemma_providers, lemma_remote_find, lemma_remote_find_is, manifest_names_unique, plugin_find,
    plugin_names_unique, plugin_tree_path, plugin_tree_path_exec, plugin_views, provider_names,
    providers, remote_find, remote_names_unique, remote_tree_path, remote_tree_path_exec,
    remote_views, views_of,
};

verus! {

/// The whole durable state of the engine, as a mathematical value.
#[verifier::ext_equal]
pub ghost struct CoffeeModel {
    pub remotes: Seq<RemoteModel>,
    pub plugins: Seq<PluginModel>,
    pub config: Seq<Seq<char>>,
    pub root: Option<Seq<char>>,
}

/// Well-formedness of the engine state: names are keys, and the
/// configuration file's managed markers are well shaped. Every
/// operation preserves this.
pub open spec fn wf_model(m: CoffeeModel) -> bool {
    &&& remote_names_unique(m.remotes)
    &&& plugin_names_unique(m.plugins)
    &&& forall|i: int| 0 <= i < m.remotes.len()
        ==> manifest_names_unique((#[trigger] m.remotes[i]).manifest)
    &&& config_clean(m.config)
}

/// The empty state: no remotes, no plugins, an empty file.
pub open spec fn empty_model() -> CoffeeModel {
    CoffeeModel {
        remotes: Seq::empty(),
        plugins: Seq::empty(),
        config: Seq::empty(),
        root: None,
    }
}

/// The index entry a successful installation registers.
pub open spec fn installed_entry(
    m: CoffeeModel,
    name: Seq<char>,
    dynamic: bool,
    version: Seq<char>,
    now: u64,
) -> PluginModel {
    let rem = m.remotes[providers(m.remotes, name)[0]];
    let di = desc_find(rem.manifest, name, 0);
    PluginModel {
        name: name,
        origin_remote: rem.local_name,
        resolved_version: version,
        artifact_path: plugin_tree_path(rem.local_name, name),
        install_mode: if dynamic || rem.manifest[di].language_hint == LanguageHint::Interpreted {
            InstallMode::Dynamic
        } else {
            InstallMode::Compiled
        },
        enabled: true,
        installed_at: now,
        tip_total_msat: 0,
    }
}

/// The state after a successful installation: the entry is registered
/// enabled and its load directive is appended to the managed block.
pub open spec fn install_model(
    m: CoffeeModel,
    name: Seq<char>,
    dynamic: bool,
    version: Seq<char>,
    now: u64,
) -> CoffeeModel {
    CoffeeModel {
        plugins: m.plugins.push(installed_entry(m, name, dynamic, version, now)),
        config: insert_directive_spec(m.config, directive_of(name)),
        ..m
    }
}

/// The state after a plugin is enabled: a no-op unless the plugin is
/// installed, disabled, and the file has a managed block.
pub open spec fn enable_model(m: CoffeeModel, name: Seq<char>) -> CoffeeModel {
    let i = plugin_find(m.plugins, name, 0);
    if i == -1 || m.plugins[i].enabled || !has_block(m.config) {
        m
    } else {
        CoffeeModel {
            plugins: m.plugins.update(i, PluginModel { enabled: true, ..m.plugins[i] }),
            config: insert_directive_spec(m.config, directive_of(name)),
            ..m
        }
    }
}

/// The state after a plugin is disabled: the mirror of `enable_model`.
pub open spec fn disable_model(m: CoffeeModel, name: Seq<char>) -> CoffeeModel {
    let i = plugin_find(m.plugins, name, 0);
    if i == -1 || !m.plugins[i].enabled || !has_block(m.config) {
        m
    } else {
        CoffeeModel {
            plugins: m.plugins.update(i, PluginModel { enabled: false, ..m.plugins[i] }),
            config: remove_directive_spec(m.config, directive_of(name)),
            ..m
        }
    }
}

/// The state after a plugin is uninstalled: its index entry leaves,
/// and its load directive with it if it was enabled.
pub open spec fn remove_model(m: CoffeeModel, name: Seq<char>) -> CoffeeModel {
    let i = plugin_find(m.plugins, name, 0);
    CoffeeModel {
        plugins: m.plugins.remove(i),
        config: if m.plugins[i].enabled {
            remove_directive_spec(m.config, directive_of(name))
        } else {
            m.config
        },
        ..m
    }
}

/// The state after a remote is registered with its first manifest.
pub open spec fn add_remote_model(
    m: CoffeeModel,
    name: Seq<char>,
    url: Seq<char>,
    manifest: Seq<DescModel>,
    now: u64,
) -> CoffeeModel {
    CoffeeModel {
        remotes: m.remotes.push(RemoteModel { local_name: name, url, manifest, last_synced: now }),
        ..m
    }
}

/// The index entries that survive the removal of a remote: everything
/// not installed from it, in order.
pub open spec fn keep_others(ps: Seq<PluginModel>, origin: Seq<char>) -> Seq<PluginModel>
    decreases ps.len(),
{
    if ps.len() == 0 {
        Seq::empty()
    } else {
        let rest = keep_others(ps.drop_last(), origin);
        if ps.last().origin_remote == origin {
            rest
        } else {
            rest.push(ps.last())
        }
    }
}

/// The configuration file after the directives of every enabled plugin
/// from one origin are removed, front to back.
pub open spec fn drop_directives(
    c: Seq<Seq<char>>,
    ps: Seq<PluginModel>,
    origin: Seq<char>,
) -> Seq<Seq<char>>
    decreases ps.len(),
{
    if ps.len() == 0 {
        c
    } else {
        let c1 = drop_directives(c, ps.drop_last(), origin);
        if ps.last().origin_remote == origin && ps.last().enabled {
            remove_directive_spec(c1, directive_of(ps.last().name))
        } else {
            c1
        }
    }
}

/// Survivors of a removal are plugins that were installed, and their
/// names stay unique.
pub proof fn lemma_keep_others(ps: Seq<PluginModel>, origin: Seq<char>)
    ensures
        forall|n: Seq<char>| is_installed(#[trigger] keep_others(ps, origin), n)
            ==> is_installed(ps, n),
        plugin_names_unique(ps) ==> plugin_names_unique(keep_others(ps, origin)),
    decreases ps.len(),
{
    if ps.len() > 0 {
        lemma_keep_others(ps.drop_last(), origin);
        let rest = keep_others(ps.drop_last(), origin);
        let all = keep_others(ps, origin);
        assert forall|n: Seq<char>| is_installed(#[trigger] keep_others(ps, origin), n)
            implies is_installed(ps, n) by {
            let k = choose|k: int| 0 <= k < all.len() && all[k].name == n;
            if k < rest.len() {
                assert(rest[k].name == n);
                assert(is_installed(rest, n));
                assert(is_installed(ps.drop_last(), n));
                let j = choose|j: int| 0 <= j < ps.drop_last().len()
                    && ps.drop_last()[j].name == n;
                assert(ps[j].name == n);
            } else {
                assert(all[k] == ps.last());
                assert(ps[ps.len() - 1].name == n);
            }
        }
        if plugin_names_unique(ps) {
            assert(plugin_names_unique(ps.drop_last())) by {
                assert forall|a: int, b: int| 0 <= a < b < ps.drop_last().len()
                    implies ps.drop_last()[a].name != ps.drop_last()[b].name by {
                    assert(ps.drop_last()[a] == ps[a]);
                    assert(ps.drop_last()[b] == ps[b]);
                }
            }
            if ps.last().origin_remote != origin {
                assert forall|a: int, b: int| 0 <= a < b < all.len()
                    implies all[a].name != all[b].name by {
                    if b < rest.len() {
                        assert(all[a] == rest[a] && all[b] == rest[b]);
                    } else {
                        assert(all[b] == ps.last());
                        assert(all[a] == rest[a]);
                        if rest[a].name == ps.last().name {
                            assert(is_installed(rest, ps.last().name));
                            assert(is_installed(ps.drop_last(), ps.last().name));
                            let j = choose|j: int| 0 <= j < ps.drop_last().len()
                                && ps.drop_last()[j].name == ps.last().name;
                            assert(ps[j].name == ps[ps.len() - 1].name);
                        }
                    }
                }
            }
        }
    }
}

/// The state after a remote is removed with its dependent plugins and
/// their directives.
pub open spec fn rm_remote_model(m: CoffeeModel, name: Seq<char>) -> CoffeeModel {
    CoffeeModel {
        remotes: m.remotes.remove(remote_find(m.remotes, name, 0)),
        plugins: keep_others(m.plugins, name),
        config: drop_directives(m.config, m.plugins, name),
        ..m
    }
}

/// Whether every installed plugin from this remote is already at the
/// refreshed version.
pub open spec fn plugins_current(ps: Seq<PluginModel>, repo: Seq<char>, commit: Seq<char>) -> bool {
    forall|i: int| 0 <= i < ps.len() && (#[trigger] ps[i]).origin_remote == repo
        ==> ps[i].resolved_version == commit
}

/// The terminal status of an upgrade run: up to date exactly when the
/// refreshed manifest equals the stored one and every installed plugin
/// from the remote is already at the refreshed version.
pub open spec fn upgrade_status_of(
    m: CoffeeModel,
    repo: Seq<char>,
    man: Seq<DescModel>,
    commit: Seq<char>,
) -> UpgradeStatus {
    if m.remotes[remote_find(m.remotes, repo, 0)].manifest == man
        && plugins_current(m.plugins, repo, commit) {
        UpgradeStatus::UpToDate
    } else {
        UpgradeStatus::Updated
    }
}

/// The index after an upgrade: each plugin from the remote that is
/// behind the refreshed version moves to it when its rebuild succeeded,
/// at the same artifact path; on a failed rebuild the entry is left
/// untouched.
pub open spec fn upgraded_plugins(
    ps: Seq<PluginModel>,
    builds: Seq<BuildOutcome>,
    repo: Seq<char>,
    commit: Seq<char>,
) -> Seq<PluginModel> {
    Seq::new(ps.len(), |i: int|
        if ps[i].origin_remote == repo && ps[i].resolved_version != commit
            && builds[i] is Success {
            PluginModel { resolved_version: commit, ..ps[i] }
        } else {
            ps[i]
        })
}

/// The per-plugin failures of an upgrade run, in index order: name and
/// collaborator output of every affected plugin whose rebuild failed.
pub open spec fn failed_from(
    ps: Seq<PluginModel>,
    builds: Seq<BuildOutcome>,
    repo: Seq<char>,
    commit: Seq<char>,
    i: int,
) -> Seq<(Seq<char>, Seq<char>)>
    decreases ps.len() - i,
{
    if i < 0 || i >= ps.len() {
        Seq::empty()
    } else {
        let rest = failed_from(ps, builds, repo, commit, i + 1);
        if ps[i].origin_remote == repo && ps[i].resolved_version != commit {
            match builds[i] {
                BuildOutcome::Failure(o) => seq![(ps[i].name, o@)] + rest,
                BuildOutcome::Success => rest,
            }
        } else {
            rest
        }
    }
}

/// Views of a sequence of string pairs.
pub open spec fn pair_views(s: Seq<(String, String)>) -> Seq<(Seq<char>, Seq<char>)> {
    Seq::new(s.len(), |i: int| (s[i].0@, s[i].1@))
}

/// The state after an upgrade run: the remote carries the refreshed
/// manifest, the index is `upgraded_plugins`, the file is untouched.
pub open spec fn upgrade_model(
    m: CoffeeModel,
    repo: Seq<char>,
    man: Seq<DescModel>,
    commit: Seq<char>,
    builds: Seq<BuildOutcome>,
    now: u64,
) -> CoffeeModel {
    let ri = remote_find(m.remotes, repo, 0);
    CoffeeModel {
        remotes: m.remotes.update(ri, RemoteModel {
            manifest: man,
            last_synced: now,
            ..m.remotes[ri]
        }),
        plugins: upgraded_plugins(m.plugins, builds, repo, commit),
        ..m
    }
}

/// The state after a confirmed tip: the plugin's recorded total grows
/// by the amount.
pub open spec fn tip_model(m: CoffeeModel, name: Seq<char>, amount: u64) -> CoffeeModel {
    let i = plugin_find(m.plugins, name, 0);
    CoffeeModel {
        plugins: m.plugins.update(i, PluginModel {
            tip_total_msat: (m.plugins[i].tip_total_msat + amount) as u64,
            ..m.plugins[i]
        }),
        ..m
    }
}

/// The engine. One value of this type owns the registry, the index and
/// the in-memory configuration file for the span of an invocation.
pub struct CoffeeManager {
    remotes: Vec<Remote>,
    plugins: Vec<InstalledPlugin>,
    config: ConfigFile,
    daemon_root: Option<String>,
}

impl View for CoffeeManager {
    type V = CoffeeModel;

    closed spec fn view(&self) -> CoffeeModel {
        CoffeeModel {
            remotes: remote_views(self.remotes@),
            plugins: plugin_views(self.plugins@),
            config: self.config@,
            root: match self.daemon_root {
                Some(r) => Some(r@),
                None => None,
            },
        }
    }
}

impl CoffeeManager {
    /// Well-formedness of this manager's state.
    pub open spec fn wf(&self) -> bool {
        wf_model(self@)
    }

    /// A fresh engine with no durable state yet.
    pub fn new() -> (r: CoffeeManager)
        ensures
            r@ == empty_model(),
            r.wf(),
    {
        let r = CoffeeManager {
            remotes: Vec::new(),
            plugins: Vec::new(),
            config: ConfigFile::new(),
            daemon_root: None,
        };
        proof {
            assert(remote_views(r.remotes@) =~= Seq::<RemoteModel>::empty());
            assert(plugin_views(r.plugins@) =~= Seq::<PluginModel>::empty());
            assert(r@ =~= empty_model());
        }
        r
    }

    /// An engine loaded from the durable stores and the configuration
    /// file read from disk. The stores are keyed by name, so the
    /// caller owes uniqueness; a begin marker without an end marker is
    /// a corrupted file the engine refuses to start from.
    pub fn from_parts(
        remotes: Vec<Remote>,
        plugins: Vec<InstalledPlugin>,
        config_lines: Vec<String>,
        daemon_root: Option<String>,
    ) -> (r: CoffeeManager)
        requires
            remote_names_unique(remote_views(remotes@)),
            plugin_names_unique(plugin_views(plugins@)),
            forall|i: int| 0 <= i < remotes@.len()
                ==> manifest_names_unique(desc_views((#[trigger] remotes@[i]).manifest@)),
            config_clean(views_of(config_lines@)),
        ensures
            r@ == (CoffeeModel {
                remotes: remote_views(remotes@),
                plugins: plugin_views(plugins@),
                config: views_of(config_lines@),
                root: match daemon_root {
                    Some(p) => Some(p@),
                    None => None,
                },
            }),
            r.wf(),
    {
        let r = CoffeeManager {
            remotes,
            plugins,
            config: ConfigFile::from_lines(config_lines),
            daemon_root,
        };
        proof {
            assert forall|i: int| 0 <= i < r@.remotes.len()
                implies manifest_names_unique((#[trigger] r@.remotes[i]).manifest) by {
                assert(r@.remotes[i] == remote_views(r.remotes@)[i]);
            }
        }
        r
    }

    /// The installed plugins: a pure projection of the index.
    pub fn list(&self) -> (r: Vec<InstalledPlugin>)
        ensures
            plugin_views(r@) == self@.plugins,
    {
        let mut r: Vec<InstalledPlugin> = Vec::new();
        let mut i: usize = 0;
        while i < self.plugins.len()
            invariant
                i <= self.plugins.len(),
                r@.len() == i,
                forall|j: int| 0 <= j < i ==> #[trigger] r@[j]@ == self.plugins@[j]@,
            decreases self.plugins.len() - i,
        {
            r.push(self.plugins[i].clone());
            i = i + 1;
        }
        proof {
            assert(plugin_views(r@) =~= self@.plugins);
        }
        r
    }

    /// The registered remotes: a pure projection of the registry.
    pub fn list_remotes(&self) -> (r: Vec<Remote>)
        ensures
            remote_views(r@) == self@.remotes,
    {
        let mut r: Vec<Remote> = Vec::new();
        let mut i: usize = 0;
        while i < self.remotes.len()
            invariant
                i <= self.remotes.len(),
                r@.len() == i,
                forall|j: int| 0 <= j < i ==> #[trigger] r@[j]@ == self.remotes@[j]@,
            decreases self.remotes.len() - i,
        {
            r.push(self.remotes[i].clone());
            i = i + 1;
        }
        proof {
            assert(remote_views(r@) =~= self@.remotes);
        }
        r
    }

    /// The configuration file's lines, for writing back to disk.
    pub fn config_lines(&self) -> (r: Vec<String>)
        ensures
            views_of(r@) == self@.config,
    {
        self.config.lines_copy()
    }

    /// The recorded daemon root path, if setup has run.
    pub fn daemon_root(&self) -> (r: Option<String>)
        ensures
            match r {
                Some(p) => self@.root == Some(p@),
                None => self@.root is None,
            },
    {
        match &self.daemon_root {
            Some(p) => Some(p.clone()),
            None => None,
        }
    }

    /// The position of an installed plugin in the index, scanning from
    /// the front.
    fn find_plugin_idx(&self, name: &String) -> (r: Option<usize>)
        ensures
            match r {
                Some(i) => (i as int) < self@.plugins.len()
                    && self@.plugins[i as int].name == name@
                    && i as int == plugin_find(self@.plugins, name@, 0)
                    && is_installed(self@.plugins, name@),
                None => !is_installed(self@.plugins, name@)
                    && plugin_find(self@.plugins, name@, 0) == -1,
            },
    {
        let ghost ps = self@.plugins;
        let mut i: usize = 0;
        let mut found: bool = false;
        while !found && i < self.plugins.len()
            invariant
                i <= self.plugins.len(),
                ps == self@.plugins,
                ps.len() == self.plugins.len(),
                !found ==> forall|j: int| 0 <= j < i ==> (#[trigger] ps[j]).name != name@,
                found ==> i < self.plugins.len() && ps[i as int].name == name@
                    && forall|j: int| 0 <= j < i ==> (#[trigger] ps[j]).name != name@,
            decreases self.plugins.len() - i, (if found { 0int } else { 1int }),
        {
            if crate::config::string_eq(&self.plugins[i].name, name) {
                found = true;
            } else {
                proof {
                    assert(ps[i as int].name != name@);
                }
                i = i + 1;
            }
        }
        if found {
            proof {
                lemma_plugin_find_is(ps, name@, i as int);
            }
            Some(i)
        } else {
            proof {
                lemma_plugin_find(ps, name@, 0);
                if plugin_find(ps, name@, 0) >= 0 {
                    assert(ps[plugin_find(ps, name@, 0)].name != name@);
                }
                assert forall|j: int| 0 <= j < ps.len()
                    implies (#[trigger] ps[j]).name != name@ by {}
            }
            None
        }
    }

    /// The position of a remote in the registry, scanning from the
    /// front.
    fn find_remote_idx(&self, name: &String) -> (r: Option<usize>)
        ensures
            match r {
                Some(i) => (i as int) < self@.remotes.len()
                    && self@.remotes[i as int].local_name == name@
                    && i as int == remote_find(self@.remotes, name@, 0)
                    && has_remote(self@.remotes, name@),
                None => !has_remote(self@.remotes, name@)
                    && remote_find(self@.remotes, name@, 0) == -1,
            },
    {
        let ghost rs = self@.remotes;
        let mut i: usize = 0;
        let mut found: bool = false;
        while !found && i < self.remotes.len()
            invariant
                i <= self.remotes.len(),
                rs == self@.remotes,
                rs.len() == self.remotes.len(),
                !found ==> forall|j: int| 0 <= j < i ==> (#[trigger] rs[j]).local_name != name@,
                found ==> i < self.remotes.len() && rs[i as int].local_name == name@
                    && forall|j: int| 0 <= j < i ==> (#[trigger] rs[j]).local_name != name@,
            decreases self.remotes.len() - i, (if found { 0int } else { 1int }),
        {
            if crate::config::string_eq(&self.remotes[i].local_name, name) {
                found = true;
            } else {
                proof {
                    assert(rs[i as int].local_name != name@);
                }
                i = i + 1;
            }
        }
        if found {
            proof {
                lemma_remote_find_is(rs, name@, i as int);
            }
            Some(i)
        } else {
            proof {
                lemma_remote_find(rs, name@, 0);
                if remote_find(rs, name@, 0) >= 0 {
                    assert(rs[remote_find(rs, name@, 0)].local_name != name@);
                }
            }
            None
        }
    }

    /// The registry positions of every remote advertising the name.
    fn provider_indices(&self, name: &String) -> (r: Vec<usize>)
        ensures
            r@.len() == providers(self@.remotes, name@).len(),
            forall|k: int| 0 <= k < r@.len()
                ==> #[trigger] r@[k] as int == providers(self@.remotes, name@)[k]
                    && (r@[k] as int) < self@.remotes.len(),
    {
        let ghost rs = self@.remotes;
        let mut r: Vec<usize> = Vec::new();
        let mut i: usize = 0;
        while i < self.remotes.len()
            invariant
                i <= self.remotes.len(),
                rs == self@.remotes,
                rs.len() == self.remotes.len(),
                r@.len() == providers(rs.take(i as int), name@).len(),
                forall|k: int| 0 <= k < r@.len()
                    ==> #[trigger] r@[k] as int == providers(rs.take(i as int), name@)[k]
                        && (r@[k] as int) < i,
            decreases self.remotes.len() - i,
        {
            let adv = manifest_has(&self.remotes[i].manifest, name);
            proof {
                assert(rs.take(i as int + 1).drop_last() =~= rs.take(i as int));
                assert(rs.take(i as int + 1).last() == rs[i as int]);
                assert(desc_views(self.remotes@[i as int].manifest@) == rs[i as int].manifest);
            }
            if adv {
                r.push(i);
            }
            i = i + 1;
        }
        proof {
            assert(rs.take(rs.len() as int) =~= rs);
        }
        r
    }

    /// The local names of the remotes at the given registry positions.
    fn names_at(&self, idxs: &Vec<usize>) -> (r: Vec<String>)
        requires
            forall|k: int| 0 <= k < idxs@.len() ==> (#[trigger] idxs@[k] as int) < self@.remotes.len(),
        ensures
            r@.len() == idxs@.len(),
            forall|k: int| 0 <= k < r@.len()
                ==> #[trigger] r@[k]@ == self@.remotes[idxs@[k] as int].local_name,
    {
        let mut r: Vec<String> = Vec::new();
        let mut k: usize = 0;
        while k < idxs.len()
            invariant
                k <= idxs@.len(),
                forall|j: int| 0 <= j < idxs@.len()
                    ==> (#[trigger] idxs@[j] as int) < self@.remotes.len(),
                r@.len() == k,
                self.remotes@.len() == self@.remotes.len(),
                forall|j: int| 0 <= j < k
                    ==> #[trigger] r@[j]@ == self@.remotes[idxs@[j] as int].local_name,
            decreases idxs@.len() - k,
        {
            let i = idxs[k];
            r.push(self.remotes[i].local_name.clone());
            k = k + 1;
        }
        r
    }

    /// Installs one plugin: resolve, fetch, build, register, activate.
    ///
    /// Installing an already-installed name is an idempotent error that
    /// never mutates anything. A unique resolution is owed success
    /// whenever the injected fetch and build outcomes succeed and the
    /// configuration patch goes through; any failure after resolution
    /// leaves the state exactly as it was — registration and activation
    /// commit as one unit.
    pub fn install(
        &mut self,
        plugin: &String,
        verbose: bool,
        dynamic: bool,
        fetch: &FetchOutcome,
        build: &BuildOutcome,
        patch_ok: bool,
        now: u64,
    ) -> (r: Result<(), CoffeeError>)
        requires
            old(self).wf(),
        ensures
            final(self).wf(),
            is_installed(old(self)@.plugins, plugin@) ==> final(self)@ == old(self)@
                && (r matches Err(CoffeeError::AlreadyInstalled(n)) && n@ == plugin@),
            !is_installed(old(self)@.plugins, plugin@)
                && providers(old(self)@.remotes, plugin@).len() == 0
                ==> final(self)@ == old(self)@
                    && (r matches Err(CoffeeError::PluginNotFound(n)) && n@ == plugin@),
            !is_installed(old(self)@.plugins, plugin@)
                && providers(old(self)@.remotes, plugin@).len() >= 2
                ==> final(self)@ == old(self)@
                    && (r matches Err(CoffeeError::AmbiguousPlugin(n, cands)) && n@ == plugin@
                        && views_of(cands@) == provider_names(old(self)@.remotes, plugin@)),
            fetch matches FetchOutcome::Failed(c)
                ==> (!is_installed(old(self)@.plugins, plugin@)
                        && providers(old(self)@.remotes, plugin@).len() == 1)
                ==> final(self)@ == old(self)@
                    && (r matches Err(CoffeeError::FetchFailed(c2)) && c2@ == c@),
            fetch matches FetchOutcome::Fetched(_)
                ==> build matches BuildOutcome::Failure(o)
                ==> (!is_installed(old(self)@.plugins, plugin@)
                        && providers(old(self)@.remotes, plugin@).len() == 1)
                ==> final(self)@ == old(self)@
                    && (r matches Err(CoffeeError::BuildFailed(o2)) && o2@ == o@),
            fetch matches FetchOutcome::Fetched(_)
                ==> build matches BuildOutcome::Success
                ==> (!is_installed(old(self)@.plugins, plugin@)
                        && providers(old(self)@.remotes, plugin@).len() == 1
                        && (!patch_ok || !has_block(old(self)@.config)))
                ==> final(self)@ == old(self)@
                    && (r matches Err(CoffeeError::ConfigPatchFailed(_))),
            fetch matches FetchOutcome::Fetched(v)
                ==> build matches BuildOutcome::Success
                ==> (!is_installed(old(self)@.plugins, plugin@)
                        && providers(old(self)@.remotes, plugin@).len() == 1
                        && patch_ok
                        && has_block(old(self)@.config))
                ==> r is Ok
                    && final(self)@ == install_model(old(self)@, plugin@, dynamic, v@, now),
    {
        let ghost m0 = self@;
        if let Some(_) = self.find_plugin_idx(plugin) {
            return Err(CoffeeError::AlreadyInstalled(plugin.clone()));
        }
        let idxs = self.provider_indices(plugin);
        proof {
            lemma_providers(m0.remotes, plugin@);
        }
        if idxs.len() == 0 {
            return Err(CoffeeError::PluginNotFound(plugin.clone()));
        }
        if idxs.len() >= 2 {
            let names = self.names_at(&idxs);
            proof {
                assert(views_of(names@) =~= provider_names(m0.remotes, plugin@));
            }
            return Err(CoffeeError::AmbiguousPlugin(plugin.clone(), names));
        }
        let ri = idxs[0];
        let version = match fetch {
            FetchOutcome::Failed(c) => {
                return Err(CoffeeError::FetchFailed(c.clone()));
            },
            FetchOutcome::Fetched(v) => v.clone(),
        };
        match build {
            BuildOutcome::Failure(o) => {
                return Err(CoffeeError::BuildFailed(o.clone()));
            },
            BuildOutcome::Success => {},
        }
        if !patch_ok {
            let mut cause = String::new();
            cause.append("config write refused");
            return Err(CoffeeError::ConfigPatchFailed(cause));
        }
        // the build strategy: an explicit override forces a dynamic
        // run; otherwise the manifest's language hint decides
        let di = match find_desc(&self.remotes[ri].manifest, plugin) {
            Some(d) => d,
            None => {
                proof {
                    assert(advertises(m0.remotes[ri as int], plugin@));
                    assert(false);
                }
                return Err(CoffeeError::PluginNotFound(plugin.clone()));
            },
        };
        let hint = self.remotes[ri].manifest[di].language_hint;
        let mode = if dynamic || matches!(hint, LanguageHint::Interpreted) {
            InstallMode::Dynamic
        } else {
            InstallMode::Compiled
        };
        let origin = self.remotes[ri].local_name.clone();
        let artifact = plugin_tree_path_exec(&origin, plugin);
        let entry = InstalledPlugin {
            name: plugin.clone(),
            origin_remote: origin,
            resolved_version: version,
            artifact_path: artifact,
            install_mode: mode,
            enabled: true,
            installed_at: now,
            tip_total_msat: 0,
        };
        proof {
            assert(entry@ == installed_entry(m0, plugin@, dynamic, entry.resolved_version@, now));
        }
        self.plugins.push(entry);
        let d = directive_line(plugin);
        let activated = self.config.insert_directive(d);
        if !activated {
            // roll the registration back: register and activate commit
            // as one logical unit
            let _ = self.plugins.pop();
            proof {
                assert(plugin_views(self.plugins@) =~= m0.plugins);
                assert(self@ =~= m0);
            }
            let mut cause = String::new();
            cause.append("no managed block in the configuration file");
            return Err(CoffeeError::ConfigPatchFailed(cause));
        }
        proof {
            let m1 = self@;
            let ghost v = m1.plugins.last().resolved_version;
            assert(plugin_views(self.plugins@)
                =~= m0.plugins.push(installed_entry(m0, plugin@, dynamic, v, now)));
            assert(m1 =~= install_model(m0, plugin@, dynamic, v, now));
            lemma_directive_not_marker(plugin@);
            lemma_insert_directive(m0.config, directive_of(plugin@));
            lemma_insert_directive_clean(m0.config, directive_of(plugin@));
            assert(plugin_names_unique(m1.plugins)) by {
                assert(forall|j: int| 0 <= j < m0.plugins.len()
                    ==> (#[trigger] m0.plugins[j]).name != plugin@);
            }
        }
        Ok(())
    }

    /// Whether any installed plugin came from this remote.
    fn has_dependents(&self, name: &String) -> (r: bool)
        ensures
            r == exists|i: int| 0 <= i < self@.plugins.len()
                && (#[trigger] self@.plugins[i]).origin_remote == name@,
    {
        let ghost ps = self@.plugins;
        let mut i: usize = 0;
        let mut found: bool = false;
        while !found && i < self.plugins.len()
            invariant
                i <= self.plugins.len(),
                ps == self@.plugins,
                ps.len() == self.plugins.len(),
                !found ==> forall|j: int| 0 <= j < i
                    ==> (#[trigger] ps[j]).origin_remote != name@,
                found ==> i < self.plugins.len() && ps[i as int].origin_remote == name@,
            decreases self.plugins.len() - i, (if found { 0int } else { 1int }),
        {
            if crate::config::string_eq(&self.plugins[i].origin_remote, name) {
                found = true;
            } else {
                proof {
                    assert(ps[i as int].origin_remote != name@);
                }
                i = i + 1;
            }
        }
        found
    }

    /// Enables an installed plugin and appends its load directive;
    /// enabling a plugin already enabled is a successful no-op that
    /// touches nothing. A failed patch rolls the flag back.
    pub fn enable(&mut self, plugin: &String, patch_ok: bool) -> (r: Result<(), CoffeeError>)
        requires
            old(self).wf(),
        ensures
            final(self).wf(),
            plugin_find(old(self)@.plugins, plugin@, 0) == -1 ==> final(self)@ == old(self)@
                && (r matches Err(CoffeeError::PluginNotFound(n)) && n@ == plugin@),
            ({
                let pf = plugin_find(old(self)@.plugins, plugin@, 0);
                pf >= 0 && old(self)@.plugins[pf].enabled
            }) ==> final(self)@ == old(self)@ && r is Ok,
            ({
                let pf = plugin_find(old(self)@.plugins, plugin@, 0);
                pf >= 0 && !old(self)@.plugins[pf].enabled
                    && (!patch_ok || !has_block(old(self)@.config))
            }) ==> final(self)@ == old(self)@
                && (r matches Err(CoffeeError::ConfigPatchFailed(_))),
            ({
                let pf = plugin_find(old(self)@.plugins, plugin@, 0);
                pf >= 0 && !old(self)@.plugins[pf].enabled && patch_ok
                    && has_block(old(self)@.config)
            }) ==> r is Ok && final(self)@ == enable_model(old(self)@, plugin@),
    {
        let ghost m0 = self@;
        let i = match self.find_plugin_idx(plugin) {
            None => {
                return Err(CoffeeError::PluginNotFound(plugin.clone()));
            },
            Some(i) => i,
        };
        if self.plugins[i].enabled {
            return Ok(());
        }
        if !patch_ok {
            let mut cause = String::new();
            cause.append("config write refused");
            return Err(CoffeeError::ConfigPatchFailed(cause));
        }
        match self.config.find_markers() {
            None => {
                let mut cause = String::new();
                cause.append("no managed block in the configuration file");
                return Err(CoffeeError::ConfigPatchFailed(cause));
            },
            Some(_) => {},
        }
        let entry = self.plugins.remove(i);
        let flipped = InstalledPlugin {
            name: entry.name,
            origin_remote: entry.origin_remote,
            resolved_version: entry.resolved_version,
            artifact_path: entry.artifact_path,
            install_mode: entry.install_mode,
            enabled: true,
            installed_at: entry.installed_at,
            tip_total_msat: entry.tip_total_msat,
        };
        self.plugins.insert(i, flipped);
        let d = directive_line(plugin);
        let activated = self.config.insert_directive(d);
        proof {
            assert(activated);
            assert(plugin_views(self.plugins@) =~= m0.plugins.update(
                i as int,
                PluginModel { enabled: true, ..m0.plugins[i as int] },
            ));
            assert(self@ =~= enable_model(m0, plugin@));
            lemma_directive_not_marker(plugin@);
            lemma_insert_directive_clean(m0.config, directive_of(plugin@));
            assert forall|a: int, b: int| 0 <= a < b < self@.plugins.len()
                implies self@.plugins[a].name != self@.plugins[b].name by {
                assert(self@.plugins[a].name == m0.plugins[a].name);
                assert(self@.plugins[b].name == m0.plugins[b].name);
            }
        }
        Ok(())
    }

    /// Disables an installed plugin and removes its load directive;
    /// disabling a plugin already disabled is a successful no-op.
    pub fn disable(&mut self, plugin: &String, patch_ok: bool) -> (r: Result<(), CoffeeError>)
        requires
            old(self).wf(),
        ensures
            final(self).wf(),
            plugin_find(old(self)@.plugins, plugin@, 0) == -1 ==> final(self)@ == old(self)@
                && (r matches Err(CoffeeError::PluginNotFound(n)) && n@ == plugin@),
            ({
                let pf = plugin_find(old(self)@.plugins, plugin@, 0);
                pf >= 0 && !old(self)@.plugins[pf].enabled
            }) ==> final(self)@ == old(self)@ && r is Ok,
            ({
                let pf = plugin_find(old(self)@.plugins, plugin@, 0);
                pf >= 0 && old(self)@.plugins[pf].enabled
                    && (!patch_ok || !has_block(old(self)@.config))
            }) ==> final(self)@ == old(self)@
                && (r matches Err(CoffeeError::ConfigPatchFailed(_))),
            ({
                let pf = plugin_find(old(self)@.plugins, plugin@, 0);
                pf >= 0 && old(self)@.plugins[pf].enabled && patch_ok
                    && has_block(old(self)@.config)
            }) ==> r is Ok && final(self)@ == disable_model(old(self)@, plugin@),
    {
        let ghost m0 = self@;
        let i = match self.find_plugin_idx(plugin) {
            None => {
                return Err(CoffeeError::PluginNotFound(plugin.clone()));
            },
            Some(i) => i,
        };
        if !self.plugins[i].enabled {
            return Ok(());
        }
        if !patch_ok {
            let mut cause = String::new();
            cause.append("config write refused");
            return Err(CoffeeError::ConfigPatchFailed(cause));
        }
        match self.config.find_markers() {
            None => {
                let mut cause = String::new();
                cause.append("no managed block in the configuration file");
                return Err(CoffeeError::ConfigPatchFailed(cause));
            },
            Some(_) => {},
        }
        let entry = self.plugins.remove(i);
        let flipped = InstalledPlugin {
            name: entry.name,
            origin_remote: entry.origin_remote,
            resolved_version: entry.resolved_version,
            artifact_path: entry.artifact_path,
            install_mode: entry.install_mode,
            enabled: false,
            installed_at: entry.installed_at,
            tip_total_msat: entry.tip_total_msat,
        };
        self.plugins.insert(i, flipped);
        let d = directive_line(plugin);
        let deactivated = self.config.remove_directive(&d);
        proof {
            assert(deactivated);
            assert(plugin_views(self.plugins@) =~= m0.plugins.update(
                i as int,
                PluginModel { enabled: false, ..m0.plugins[i as int] },
            ));
            assert(self@ =~= disable_model(m0, plugin@));
            lemma_directive_not_marker(plugin@);
            lemma_remove_directive_clean(m0.config, directive_of(plugin@));
            assert forall|a: int, b: int| 0 <= a < b < self@.plugins.len()
                implies self@.plugins[a].name != self@.plugins[b].name by {
                assert(self@.plugins[a].name == m0.plugins[a].name);
                assert(self@.plugins[b].name == m0.plugins[b].name);
            }
        }
        Ok(())
    }

    /// Uninstalls a plugin: its index entry leaves, and its directive
    /// with it if it was enabled.
    pub fn remove(&mut self, plugin: &String) -> (r: Result<(), CoffeeError>)
        requires
            old(self).wf(),
        ensures
            final(self).wf(),
            plugin_find(old(self)@.plugins, plugin@, 0) == -1 ==> final(self)@ == old(self)@
                && (r matches Err(CoffeeError::PluginNotFound(n)) && n@ == plugin@),
            plugin_find(old(self)@.plugins, plugin@, 0) >= 0 ==> r is Ok
                && final(self)@ == remove_model(old(self)@, plugin@),
    {
        let ghost m0 = self@;
        let i = match self.find_plugin_idx(plugin) {
            None => {
                return Err(CoffeeError::PluginNotFound(plugin.clone()));
            },
            Some(i) => i,
        };
        let entry = self.plugins.remove(i);
        if entry.enabled {
            let d = directive_line(plugin);
            let ghost cbefore = self@.config;
            let patched = self.config.remove_directive(&d);
            proof {
                if !patched {
                    lemma_no_block_no_directive(cbefore, directive_of(plugin@));
                }
                lemma_directive_not_marker(plugin@);
                lemma_remove_directive_clean(cbefore, directive_of(plugin@));
            }
        }
        proof {
            assert(plugin_views(self.plugins@) =~= m0.plugins.remove(i as int));
            assert(self@ =~= remove_model(m0, plugin@));
            assert forall|a: int, b: int| 0 <= a < b < self@.plugins.len()
                implies self@.plugins[a].name != self@.plugins[b].name by {
                if a < i as int {
                    assert(self@.plugins[a] == m0.plugins[a]);
                } else {
                    assert(self@.plugins[a] == m0.plugins[a + 1]);
                }
                if b < i as int {
                    assert(self@.plugins[b] == m0.plugins[b]);
                } else {
                    assert(self@.plugins[b] == m0.plugins[b + 1]);
                }
            }
        }
        Ok(())
    }

    /// Registers a remote after its first successful manifest read; a
    /// remote is never persisted without one.
    pub fn add_remote(
        &mut self,
        name: &String,
        url: &String,
        refresh: &RefreshOutcome,
        now: u64,
    ) -> (r: Result<(), CoffeeError>)
        requires
            old(self).wf(),
            refresh matches RefreshOutcome::Refreshed(man, _)
                ==> manifest_names_unique(desc_views(man@)),
        ensures
            final(self).wf(),
            remote_find(old(self)@.remotes, name@, 0) >= 0 ==> final(self)@ == old(self)@
                && (r matches Err(CoffeeError::DuplicateRemote(n)) && n@ == name@),
            refresh matches RefreshOutcome::Failed(c)
                ==> remote_find(old(self)@.remotes, name@, 0) == -1
                ==> final(self)@ == old(self)@
                    && (r matches Err(CoffeeError::FetchFailed(c2)) && c2@ == c@),
            refresh matches RefreshOutcome::Refreshed(man, _)
                ==> remote_find(old(self)@.remotes, name@, 0) == -1
                ==> r is Ok
                    && final(self)@ == add_remote_model(old(self)@, name@, url@,
                        desc_views(man@), now),
    {
        let ghost m0 = self@;
        if let Some(_) = self.find_remote_idx(name) {
            return Err(CoffeeError::DuplicateRemote(name.clone()));
        }
        let manifest = match refresh {
            RefreshOutcome::Failed(c) => {
                return Err(CoffeeError::FetchFailed(c.clone()));
            },
            RefreshOutcome::Refreshed(man, _commit) => {
                let mut copy: Vec<PluginDescriptor> = Vec::new();
                let mut i: usize = 0;
                while i < man.len()
                    invariant
                        i <= man.len(),
                        copy@.len() == i,
                        forall|j: int| 0 <= j < i ==> #[trigger] copy@[j]@ == man@[j]@,
                    decreases man.len() - i,
                {
                    copy.push(man[i].clone());
                    i = i + 1;
                }
                proof {
                    assert(desc_views(copy@) =~= desc_views(man@));
                }
                copy
            },
        };
        let rem = Remote {
            local_name: name.clone(),
            url: url.clone(),
            manifest,
            last_synced: now,
        };
        self.remotes.push(rem);
        proof {
            assert(remote_views(self.remotes@) =~= m0.remotes.push(self@.remotes.last()));
            assert(self@ =~= add_remote_model(m0, name@, url@, self@.remotes.last().manifest,
                now));
            assert forall|a: int, b: int| 0 <= a < b < self@.remotes.len()
                implies self@.remotes[a].local_name != self@.remotes[b].local_name by {
                if b < self@.remotes.len() - 1 {
                    assert(self@.remotes[a] == m0.remotes[a]);
                    assert(self@.remotes[b] == m0.remotes[b]);
                } else {
                    assert(self@.remotes[a] == m0.remotes[a]);
                    assert(m0.remotes[a].local_name != name@);
                }
            }
            assert forall|k: int| 0 <= k < self@.remotes.len()
                implies manifest_names_unique((#[trigger] self@.remotes[k]).manifest) by {
                if k < self@.remotes.len() - 1 {
                    assert(self@.remotes[k] == m0.remotes[k]);
                }
            }
        }
        Ok(())
    }

    /// Unregisters a remote. With installed dependents this fails
    /// unless forced; forced removal takes the dependents and their
    /// directives with it.
    pub fn rm_remote(&mut self, name: &String, force: bool) -> (r: Result<(), CoffeeError>)
        requires
            old(self).wf(),
        ensures
            final(self).wf(),
            remote_find(old(self)@.remotes, name@, 0) == -1 ==> final(self)@ == old(self)@
                && (r matches Err(CoffeeError::RemoteNotFound(n)) && n@ == name@),
            remote_find(old(self)@.remotes, name@, 0) >= 0 && !force
                && (exists|i: int| 0 <= i < old(self)@.plugins.len()
                    && (#[trigger] old(self)@.plugins[i]).origin_remote == name@)
                ==> final(self)@ == old(self)@
                    && (r matches Err(CoffeeError::RemoteInUse(n)) && n@ == name@),
            remote_find(old(self)@.remotes, name@, 0) >= 0
                && (force || !(exists|i: int| 0 <= i < old(self)@.plugins.len()
                    && (#[trigger] old(self)@.plugins[i]).origin_remote == name@))
                ==> r is Ok && final(self)@ == rm_remote_model(old(self)@, name@),
    {
        let ghost m0 = self@;
        let ri = match self.find_remote_idx(name) {
            None => {
                return Err(CoffeeError::RemoteNotFound(name.clone()));
            },
            Some(i) => i,
        };
        let dep = self.has_dependents(name);
        if dep && !force {
            return Err(CoffeeError::RemoteInUse(name.clone()));
        }
        let ghost ps0 = m0.plugins;
        let mut kept: Vec<InstalledPlugin> = Vec::new();
        let mut i: usize = 0;
        while i < self.plugins.len()
            invariant
                i <= self.plugins.len(),
                plugin_views(self.plugins@) == ps0,
                ps0.len() == self.plugins.len(),
                remote_views(self.remotes@) == m0.remotes,
                self@.root == m0.root,
                plugin_views(kept@) == keep_others(ps0.take(i as int), name@),
                self@.config == drop_directives(m0.config, ps0.take(i as int), name@),
                config_clean(self@.config),
            decreases self.plugins.len() - i,
        {
            proof {
                assert(ps0.take(i as int + 1).drop_last() =~= ps0.take(i as int));
                assert(ps0.take(i as int + 1).last() == ps0[i as int]);
            }
            let p = self.plugins[i].clone();
            if crate::config::string_eq(&p.origin_remote, name) {
                if p.enabled {
                    let d = directive_line(&p.name);
                    let ghost cbefore = self@.config;
                    let patched = self.config.remove_directive(&d);
                    proof {
                        if !patched {
                            lemma_no_block_no_directive(cbefore, directive_of(p@.name));
                        }
                        lemma_directive_not_marker(p@.name);
                        lemma_remove_directive_clean(cbefore, directive_of(p@.name));
                        assert(self@.config
                            == drop_directives(m0.config, ps0.take(i as int + 1), name@));
                    }
                }
            } else {
                kept.push(p);
                proof {
                    assert(plugin_views(kept@)
                        =~= keep_others(ps0.take(i as int), name@).push(ps0[i as int]));
                }
            }
            i = i + 1;
        }
        self.plugins = kept;
        self.remotes.remove(ri);
        proof {
            assert(ps0.take(ps0.len() as int) =~= ps0);
            assert(remote_views(self.remotes@) =~= m0.remotes.remove(ri as int));
            assert(self@ =~= rm_remote_model(m0, name@));
            lemma_keep_others(ps0, name@);
            assert forall|a: int, b: int| 0 <= a < b < self@.remotes.len()
                implies self@.remotes[a].local_name != self@.remotes[b].local_name by {
                if a < ri as int {
                    assert(self@.remotes[a] == m0.remotes[a]);
                } else {
                    assert(self@.remotes[a] == m0.remotes[a + 1]);
                }
                if b < ri as int {
                    assert(self@.remotes[b] == m0.remotes[b]);
                } else {
                    assert(self@.remotes[b] == m0.remotes[b + 1]);
                }
            }
            assert forall|k: int| 0 <= k < self@.remotes.len()
                implies manifest_names_unique((#[trigger] self@.remotes[k]).manifest) by {
                if k < ri as int {
                    assert(self@.remotes[k] == m0.remotes[k]);
                } else {
                    assert(self@.remotes[k] == m0.remotes[k + 1]);
                }
            }
        }
        Ok(())
    }

    /// Upgrades every installed plugin of one remote to the refreshed
    /// manifest's version. `builds` holds one rebuild outcome per index
    /// position. Failures are isolated per plugin: a failed rebuild
    /// leaves that entry untouched and is reported in the outcome,
    /// while the rest of the batch proceeds.
    pub fn upgrade(
        &mut self,
        repo: &String,
        verbose: bool,
        refresh: &RefreshOutcome,
        builds: &Vec<BuildOutcome>,
        now: u64,
    ) -> (r: Result<UpgradeOutcome, CoffeeError>)
        requires
            old(self).wf(),
            builds@.len() == old(self)@.plugins.len(),
            refresh matches RefreshOutcome::Refreshed(man, _)
                ==> manifest_names_unique(desc_views(man@)),
        ensures
            final(self).wf(),
            remote_find(old(self)@.remotes, repo@, 0) == -1 ==> final(self)@ == old(self)@
                && (r matches Err(CoffeeError::RemoteNotFound(n)) && n@ == repo@),
            refresh matches RefreshOutcome::Failed(c)
                ==> remote_find(old(self)@.remotes, repo@, 0) >= 0
                ==> final(self)@ == old(self)@
                    && (r matches Err(CoffeeError::FetchFailed(c2)) && c2@ == c@),
            refresh matches RefreshOutcome::Refreshed(man, commit)
                ==> remote_find(old(self)@.remotes, repo@, 0) >= 0
                ==> (r matches Ok(out) && out.repo@ == repo@
                    && out.status == upgrade_status_of(old(self)@, repo@, desc_views(man@),
                        commit@)
                    && pair_views(out.failed@) == failed_from(old(self)@.plugins, builds@,
                        repo@, commit@, 0)
                    && final(self)@ == upgrade_model(old(self)@, repo@, desc_views(man@),
                        commit@, builds@, now)),
    {
        let ghost m0 = self@;
        let ri = match self.find_remote_idx(repo) {
            None => {
                return Err(CoffeeError::RemoteNotFound(repo.clone()));
            },
            Some(i) => i,
        };
        let (man, commit) = match refresh {
            RefreshOutcome::Failed(c) => {
                return Err(CoffeeError::FetchFailed(c.clone()));
            },
            RefreshOutcome::Refreshed(man, commit) => (man, commit),
        };
        // the status is judged against the state before the refresh
        let man_same = manifests_eq(&self.remotes[ri].manifest, man);
        let mut all_current: bool = true;
        let mut j: usize = 0;
        while j < self.plugins.len()
            invariant
                j <= self.plugins.len(),
                self@ == m0,
                m0.plugins.len() == self.plugins.len(),
                all_current ==> forall|t: int| 0 <= t < j
                    && (#[trigger] m0.plugins[t]).origin_remote == repo@
                    ==> m0.plugins[t].resolved_version == commit@,
                !all_current ==> exists|t: int| 0 <= t < j
                    && (#[trigger] m0.plugins[t]).origin_remote == repo@
                    && m0.plugins[t].resolved_version != commit@,
            decreases self.plugins.len() - j,
        {
            if crate::config::string_eq(&self.plugins[j].origin_remote, repo)
                && !crate::config::string_eq(&self.plugins[j].resolved_version, commit) {
                proof {
                    assert(m0.plugins[j as int].origin_remote == repo@
                        && m0.plugins[j as int].resolved_version != commit@);
                }
                all_current = false;
            }
            j = j + 1;
        }
        let status = if man_same && all_current {
            UpgradeStatus::UpToDate
        } else {
            UpgradeStatus::Updated
        };
        proof {
            assert(status == upgrade_status_of(m0, repo@, desc_views(man@), commit@));
        }
        // refresh the stored manifest
        let mut man_copy: Vec<PluginDescriptor> = Vec::new();
        let mut t: usize = 0;
        while t < man.len()
            invariant
                t <= man.len(),
                man_copy@.len() == t,
                forall|k: int| 0 <= k < t ==> #[trigger] man_copy@[k]@ == man@[k]@,
            decreases man.len() - t,
        {
            man_copy.push(man[t].clone());
            t = t + 1;
        }
        let old_rem = self.remotes.remove(ri);
        let new_rem = Remote {
            local_name: old_rem.local_name,
            url: old_rem.url,
            manifest: man_copy,
            last_synced: now,
        };
        self.remotes.insert(ri, new_rem);
        let ghost rs1 = m0.remotes.update(ri as int, RemoteModel {
            manifest: desc_views(man@),
            last_synced: now,
            ..m0.remotes[ri as int]
        });
        proof {
            assert(desc_views(self.remotes@[ri as int].manifest@) =~= desc_views(man@));
            assert(self.remotes@[ri as int]@ =~= rs1[ri as int]);
            assert(remote_views(self.remotes@) =~= rs1);
        }
        // rebuild each installed plugin that is behind
        let ghost up = upgraded_plugins(m0.plugins, builds@, repo@, commit@);
        let mut failed: Vec<(String, String)> = Vec::new();
        let mut i: usize = 0;
        while i < self.plugins.len()
            invariant
                i <= self.plugins.len(),
                self.plugins@.len() == m0.plugins.len(),
                builds@.len() == m0.plugins.len(),
                up == upgraded_plugins(m0.plugins, builds@, repo@, commit@),
                up.len() == m0.plugins.len(),
                remote_views(self.remotes@) == rs1,
                self@.config == m0.config,
                self@.root == m0.root,
                forall|k: int| 0 <= k < i ==> plugin_views(self.plugins@)[k] == up[k],
                forall|k: int| i <= k < m0.plugins.len()
                    ==> plugin_views(self.plugins@)[k] == m0.plugins[k],
                pair_views(failed@) + failed_from(m0.plugins, builds@, repo@, commit@, i as int)
                    == failed_from(m0.plugins, builds@, repo@, commit@, 0),
            decreases self.plugins.len() - i,
        {
            let ghost failed0 = pair_views(failed@);
            let p = self.plugins[i].clone();
            proof {
                assert(p@ == m0.plugins[i as int]);
            }
            let affected = crate::config::string_eq(&p.origin_remote, repo)
                && !crate::config::string_eq(&p.resolved_version, commit);
            if affected {
                match &builds[i] {
                    BuildOutcome::Success => {
                        let ghost before = plugin_views(self.plugins@);
                        let entry = self.plugins.remove(i);
                        let upd = InstalledPlugin {
                            name: entry.name,
                            origin_remote: entry.origin_remote,
                            resolved_version: commit.clone(),
                            artifact_path: entry.artifact_path,
                            install_mode: entry.install_mode,
                            enabled: entry.enabled,
                            installed_at: entry.installed_at,
                            tip_total_msat: entry.tip_total_msat,
                        };
                        self.plugins.insert(i, upd);
                        proof {
                            assert(plugin_views(self.plugins@)[i as int] == up[i as int]);
                            assert forall|k: int| 0 <= k < before.len() && k != i as int
                                implies plugin_views(self.plugins@)[k] == before[k] by {}
                        }
                    },
                    BuildOutcome::Failure(o) => {
                        failed.push((p.name, o.clone()));
                        proof {
                            assert(pair_views(failed@)
                                =~= failed0.push((m0.plugins[i as int].name, o@)));
                            assert(failed_from(m0.plugins, builds@, repo@, commit@, i as int)
                                == seq![(m0.plugins[i as int].name, o@)]
                                    + failed_from(m0.plugins, builds@, repo@, commit@,
                                        i as int + 1));
                            assert(pair_views(failed@)
                                + failed_from(m0.plugins, builds@, repo@, commit@, i as int + 1)
                                =~= failed0
                                    + failed_from(m0.plugins, builds@, repo@, commit@,
                                        i as int));
                        }
                    },
                }
            } else {
                proof {
                    assert(up[i as int] == m0.plugins[i as int]);
                }
            }
            i = i + 1;
        }
        let out = UpgradeOutcome {
            repo: repo.clone(),
            status,
            failed,
        };
        proof {
            assert(pair_views(out.failed@)
                =~= failed_from(m0.plugins, builds@, repo@, commit@, 0));
            assert(plugin_views(self.plugins@) =~= up);
            assert(self@ =~= upgrade_model(m0, repo@, desc_views(man@), commit@, builds@, now));
            assert forall|a: int, b: int| 0 <= a < b < self@.plugins.len()
                implies self@.plugins[a].name != self@.plugins[b].name by {
                assert(self@.plugins[a].name == m0.plugins[a].name);
                assert(self@.plugins[b].name == m0.plugins[b].name);
            }
            assert forall|a: int, b: int| 0 <= a < b < self@.remotes.len()
                implies self@.remotes[a].local_name != self@.remotes[b].local_name by {
                assert(self@.remotes[a].local_name == m0.remotes[a].local_name);
                assert(self@.remotes[b].local_name == m0.remotes[b].local_name);
            }
            assert forall|k: int| 0 <= k < self@.remotes.len()
                implies manifest_names_unique((#[trigger] self@.remotes[k]).manifest) by {
                if k != ri as int {
                    assert(self@.remotes[k] == m0.remotes[k]);
                }
            }
        }
        Ok(out)
    }

    /// The manifest one remote currently advertises: a pure read with
    /// no fetch side effect.
    pub fn get_plugins_in_remote(&self, name: &String)
        -> (r: Result<Vec<PluginDescriptor>, CoffeeError>)
        ensures
            remote_find(self@.remotes, name@, 0) == -1
                ==> (r matches Err(CoffeeError::RemoteNotFound(n)) && n@ == name@),
            remote_find(self@.remotes, name@, 0) >= 0
                ==> (r matches Ok(man) && desc_views(man@)
                    == self@.remotes[remote_find(self@.remotes, name@, 0)].manifest),
    {
        let ri = match self.find_remote_idx(name) {
            None => {
                return Err(CoffeeError::RemoteNotFound(name.clone()));
            },
            Some(i) => i,
        };
        let mut man: Vec<PluginDescriptor> = Vec::new();
        let mut i: usize = 0;
        while i < self.remotes[ri].manifest.len()
            invariant
                (ri as int) < self.remotes@.len(),
                i <= self.remotes@[ri as int].manifest.len(),
                man@.len() == i,
                forall|j: int| 0 <= j < i
                    ==> #[trigger] man@[j]@ == self.remotes@[ri as int].manifest@[j]@,
            decreases self.remotes@[ri as int].manifest@.len() - i,
        {
            man.push(self.remotes[ri].manifest[i].clone());
            i = i + 1;
        }
        proof {
            assert(desc_views(man@) =~= self@.remotes[ri as int].manifest);
        }
        Ok(man)
    }

    /// Finds the first remote advertising the name and returns its
    /// repository URL. A pure read: no fetch, no mutation.
    pub fn search(&self, name: &String) -> (r: Result<String, CoffeeError>)
        ensures
            providers(self@.remotes, name@).len() == 0
                ==> (r matches Err(CoffeeError::PluginNotFound(n)) && n@ == name@),
            providers(self@.remotes, name@).len() > 0
                ==> (r matches Ok(url)
                    && url@ == self@.remotes[providers(self@.remotes, name@)[0]].url),
    {
        let idxs = self.provider_indices(name);
        if idxs.len() == 0 {
            return Err(CoffeeError::PluginNotFound(name.clone()));
        }
        let ri = idxs[0];
        Ok(self.remotes[ri].url.clone())
    }

    /// Returns the readme text the first advertising remote declares
    /// for the plugin.
    pub fn show(&self, name: &String) -> (r: Result<String, CoffeeError>)
        ensures
            providers(self@.remotes, name@).len() == 0
                ==> (r matches Err(CoffeeError::PluginNotFound(n)) && n@ == name@),
            providers(self@.remotes, name@).len() > 0
                ==> (r matches Ok(text) && text@ == ({
                    let rem = self@.remotes[providers(self@.remotes, name@)[0]];
                    rem.manifest[desc_find(rem.manifest, name@, 0)].readme
                })),
    {
        let idxs = self.provider_indices(name);
        proof {
            lemma_providers(self@.remotes, name@);
        }
        if idxs.len() == 0 {
            return Err(CoffeeError::PluginNotFound(name.clone()));
        }
        let ri = idxs[0];
        match find_desc(&self.remotes[ri].manifest, name) {
            Some(k) => Ok(self.remotes[ri].manifest[k].readme.clone()),
            None => {
                proof {
                    assert(advertises(self@.remotes[ri as int], name@));
                    assert(false);
                }
                Err(CoffeeError::PluginNotFound(name.clone()))
            },
        }
    }

    /// Records a tip for an installed plugin. The payment itself is the
    /// collaborator's work; only a confirmed payment mutates the
    /// recorded total.
    pub fn tip(&mut self, plugin: &String, amount_msat: u64, pay_ok: bool)
        -> (r: Result<TipOutcome, CoffeeError>)
        requires
            old(self).wf(),
            ({
                let pf = plugin_find(old(self)@.plugins, plugin@, 0);
                pay_ok && pf >= 0
                    ==> old(self)@.plugins[pf].tip_total_msat + amount_msat <= u64::MAX
            }),
        ensures
            final(self).wf(),
            plugin_find(old(self)@.plugins, plugin@, 0) == -1 ==> final(self)@ == old(self)@
                && (r matches Err(CoffeeError::PluginNotFound(n)) && n@ == plugin@),
            ({
                let pf = plugin_find(old(self)@.plugins, plugin@, 0);
                pf >= 0 && !pay_ok
            }) ==> final(self)@ == old(self)@
                && (r matches Ok(out) && !out.confirmed
                    && out.total_msat == old(self)@.plugins[plugin_find(old(self)@.plugins,
                        plugin@, 0)].tip_total_msat),
            ({
                let pf = plugin_find(old(self)@.plugins, plugin@, 0);
                pf >= 0 && pay_ok
            }) ==> final(self)@ == tip_model(old(self)@, plugin@, amount_msat)
                && (r matches Ok(out) && out.confirmed
                    && out.total_msat == old(self)@.plugins[plugin_find(old(self)@.plugins,
                        plugin@, 0)].tip_total_msat + amount_msat),
    {
        let ghost m0 = self@;
        let i = match self.find_plugin_idx(plugin) {
            None => {
                return Err(CoffeeError::PluginNotFound(plugin.clone()));
            },
            Some(i) => i,
        };
        if !pay_ok {
            return Ok(TipOutcome {
                confirmed: false,
                total_msat: self.plugins[i].tip_total_msat,
            });
        }
        let entry = self.plugins.remove(i);
        let new_total = entry.tip_total_msat + amount_msat;
        let upd = InstalledPlugin {
            name: entry.name,
            origin_remote: entry.origin_remote,
            resolved_version: entry.resolved_version,
            artifact_path: entry.artifact_path,
            install_mode: entry.install_mode,
            enabled: entry.enabled,
            installed_at: entry.installed_at,
            tip_total_msat: new_total,
        };
        self.plugins.insert(i, upd);
        proof {
            assert(plugin_views(self.plugins@) =~= m0.plugins.update(
                i as int,
                PluginModel {
                    tip_total_msat: (m0.plugins[i as int].tip_total_msat + amount_msat) as u64,
                    ..m0.plugins[i as int]
                },
            ));
            assert(self@ =~= tip_model(m0, plugin@, amount_msat));
            assert forall|a: int, b: int| 0 <= a < b < self@.plugins.len()
                implies self@.plugins[a].name != self@.plugins[b].name by {
                assert(self@.plugins[a].name == m0.plugins[a].name);
                assert(self@.plugins[b].name == m0.plugins[b].name);
            }
        }
        Ok(TipOutcome {
            confirmed: true,
            total_msat: new_total,
        })
    }

    /// Whether a line is the load directive of some enabled plugin.
    fn line_active(&self, line: &String) -> (r: bool)
        ensures
            r == line_is_active_directive(self@.plugins, line@),
    {
        let ghost ps = self@.plugins;
        let mut i: usize = 0;
        let mut found: bool = false;
        while !found && i < self.plugins.len()
            invariant
                i <= self.plugins.len(),
                ps == self@.plugins,
                ps.len() == self.plugins.len(),
                !found ==> forall|t: int| 0 <= t < i ==> !((#[trigger] ps[t]).enabled
                    && line@ == directive_of(ps[t].name)),
                found ==> i < self.plugins.len() && ps[i as int].enabled
                    && line@ == directive_of(ps[i as int].name),
            decreases self.plugins.len() - i, (if found { 0int } else { 1int }),
        {
            let mut hit: bool = false;
            if self.plugins[i].enabled {
                let d = directive_line(&self.plugins[i].name);
                if crate::config::string_eq(line, &d) {
                    hit = true;
                }
            }
            if hit {
                found = true;
            } else {
                proof {
                    assert(!(ps[i as int].enabled && line@ == directive_of(ps[i as int].name)));
                }
                i = i + 1;
            }
        }
        proof {
            if !found {
                if line_is_active_directive(ps, line@) {
                    let t = choose|t: int| 0 <= t < ps.len() && (#[trigger] ps[t]).enabled
                        && line@ == directive_of(ps[t].name);
                    assert(!(ps[t].enabled && line@ == directive_of(ps[t].name)));
                }
            }
        }
        found
    }

    /// Verifies the state against the given set of existing filesystem
    /// paths: a read-only report of every failing consistency check.
    /// The report is sane exactly when the state is.
    pub fn nurse_verify(&self, fs: &Vec<String>) -> (r: SanityReport)
        ensures
            r.missing_block == !has_block(self@.config),
            forall|k: int| 0 <= k < r.orphan_plugins@.len()
                ==> reports_orphan_plugin(self@, (#[trigger] r.orphan_plugins@[k])@),
            forall|t: int| 0 <= t < self@.plugins.len()
                && !has_remote(self@.remotes, (#[trigger] self@.plugins[t]).origin_remote)
                ==> holds_line(r.orphan_plugins@, self@.plugins[t].name),
            forall|k: int| 0 <= k < r.missing_artifacts@.len()
                ==> reports_missing_artifact(self@, views_of(fs@),
                    (#[trigger] r.missing_artifacts@[k])@),
            forall|t: int| 0 <= t < self@.plugins.len()
                && !views_of(fs@).contains((#[trigger] self@.plugins[t]).artifact_path)
                ==> holds_line(r.missing_artifacts@, self@.plugins[t].name),
            forall|k: int| 0 <= k < r.config_drift@.len()
                ==> reports_drift(self@, (#[trigger] r.config_drift@[k])@),
            has_block(self@.config) ==> forall|t: int| 0 <= t < self@.plugins.len()
                && (#[trigger] self@.plugins[t]).enabled
                && !directive_once(self@.config, directive_of(self@.plugins[t].name))
                ==> holds_line(r.config_drift@, self@.plugins[t].name),
            forall|k: int| 0 <= k < r.orphan_directives@.len()
                ==> reports_orphan_directive(self@, (#[trigger] r.orphan_directives@[k])@),
            has_block(self@.config) ==> forall|j: int|
                start_of(self@.config) < j < end_of(self@.config)
                && !line_is_active_directive(self@.plugins, #[trigger] self@.config[j])
                ==> holds_line(r.orphan_directives@, self@.config[j]),
            forall|k: int| 0 <= k < r.missing_trees@.len()
                ==> reports_missing_tree(self@, views_of(fs@),
                    (#[trigger] r.missing_trees@[k])@),
            forall|t: int| 0 <= t < self@.remotes.len()
                && !views_of(fs@).contains(remote_tree_path(
                    (#[trigger] self@.remotes[t]).local_name))
                ==> holds_line(r.missing_trees@, self@.remotes[t].local_name),
            (!r.missing_block && r.orphan_plugins@.len() == 0
                && r.missing_artifacts@.len() == 0 && r.config_drift@.len() == 0
                && r.orphan_directives@.len() == 0 && r.missing_trees@.len() == 0)
                == is_sane(self@, views_of(fs@)),
    {
        let ghost m = self@;
        let ghost fsv = views_of(fs@);
        let markers = self.config.find_markers();

        let mut orphan_plugins: Vec<String> = Vec::new();
        let mut i: usize = 0;
        while i < self.plugins.len()
            invariant
                i <= self.plugins.len(),
                m == self@,
                m.plugins.len() == self.plugins.len(),
                forall|k: int| 0 <= k < orphan_plugins@.len()
                    ==> reports_orphan_plugin(m, (#[trigger] orphan_plugins@[k])@),
                forall|t: int| 0 <= t < i
                    && !has_remote(m.remotes, (#[trigger] m.plugins[t]).origin_remote)
                    ==> holds_line(orphan_plugins@, m.plugins[t].name),
            decreases self.plugins.len() - i,
        {
            let ghost before = orphan_plugins@;
            if self.find_remote_idx(&self.plugins[i].origin_remote).is_none() {
                orphan_plugins.push(self.plugins[i].name.clone());
                proof {
                    let last = orphan_plugins@.len() - 1;
                    assert((i as int) < m.plugins.len()
                        && (orphan_plugins@[last])@ == m.plugins[i as int].name
                        && !has_remote(m.remotes, m.plugins[i as int].origin_remote));
                    assert(reports_orphan_plugin(m, (orphan_plugins@[last])@));
                }
            }
            proof {
                assert forall|t: int| 0 <= t < i + 1
                    && !has_remote(m.remotes, (#[trigger] m.plugins[t]).origin_remote)
                    implies holds_line(orphan_plugins@, m.plugins[t].name) by {
                    if t < i {
                        assert(holds_line(before, m.plugins[t].name));
                        lemma_holds_line_grow(before, orphan_plugins@, m.plugins[t].name);
                    } else {
                        let last = orphan_plugins@.len() - 1;
                        assert((orphan_plugins@[last])@ == m.plugins[t].name);
                    }
                }
            }
            i = i + 1;
        }

        let mut missing_artifacts: Vec<String> = Vec::new();
        let mut i2: usize = 0;
        while i2 < self.plugins.len()
            invariant
                i2 <= self.plugins.len(),
                m == self@,
                fsv == views_of(fs@),
                m.plugins.len() == self.plugins.len(),
                forall|k: int| 0 <= k < missing_artifacts@.len()
                    ==> reports_missing_artifact(m, fsv, (#[trigger] missing_artifacts@[k])@),
                forall|t: int| 0 <= t < i2
                    && !fsv.contains((#[trigger] m.plugins[t]).artifact_path)
                    ==> holds_line(missing_artifacts@, m.plugins[t].name),
            decreases self.plugins.len() - i2,
        {
            let ghost before = missing_artifacts@;
            if !fs_contains(fs, &self.plugins[i2].artifact_path) {
                missing_artifacts.push(self.plugins[i2].name.clone());
                proof {
                    let last = missing_artifacts@.len() - 1;
                    assert((i2 as int) < m.plugins.len()
                        && (missing_artifacts@[last])@ == m.plugins[i2 as int].name
                        && !fsv.contains(m.plugins[i2 as int].artifact_path));
                    assert(reports_missing_artifact(m, fsv, (missing_artifacts@[last])@));
                }
            }
            proof {
                assert forall|t: int| 0 <= t < i2 + 1
                    && !fsv.contains((#[trigger] m.plugins[t]).artifact_path)
                    implies holds_line(missing_artifacts@, m.plugins[t].name) by {
                    if t < i2 {
                        assert(holds_line(before, m.plugins[t].name));
                        lemma_holds_line_grow(before, missing_artifacts@, m.plugins[t].name);
                    } else {
                        let last = missing_artifacts@.len() - 1;
                        assert((missing_artifacts@[last])@ == m.plugins[t].name);
                    }
                }
            }
            i2 = i2 + 1;
        }

        let mut config_drift: Vec<String> = Vec::new();
        let mut orphan_directives: Vec<String> = Vec::new();
        match markers {
            None => {},
            Some((s, e)) => {
                let mut i3: usize = 0;
                while i3 < self.plugins.len()
                    invariant
                        i3 <= self.plugins.len(),
                        m == self@,
                        has_block(m.config),
                        m.plugins.len() == self.plugins.len(),
                        forall|k: int| 0 <= k < config_drift@.len()
                            ==> reports_drift(m, (#[trigger] config_drift@[k])@),
                        forall|t: int| 0 <= t < i3 && (#[trigger] m.plugins[t]).enabled
                            && !directive_once(m.config, directive_of(m.plugins[t].name))
                            ==> holds_line(config_drift@, m.plugins[t].name),
                    decreases self.plugins.len() - i3,
                {
                    let ghost before = config_drift@;
                    if self.plugins[i3].enabled {
                        let d = directive_line(&self.plugins[i3].name);
                        if !self.config.directive_unique(&d) {
                            config_drift.push(self.plugins[i3].name.clone());
                            proof {
                                let last = config_drift@.len() - 1;
                                assert((i3 as int) < m.plugins.len()
                                    && (config_drift@[last])@ == m.plugins[i3 as int].name
                                    && m.plugins[i3 as int].enabled && has_block(m.config)
                                    && !directive_once(m.config,
                                        directive_of(m.plugins[i3 as int].name)));
                                assert(reports_drift(m, (config_drift@[last])@));
                            }
                        }
                    }
                    proof {
                        assert forall|t: int| 0 <= t < i3 + 1
                            && (#[trigger] m.plugins[t]).enabled
                            && !directive_once(m.config, directive_of(m.plugins[t].name))
                            implies holds_line(config_drift@, m.plugins[t].name) by {
                            if t < i3 {
                                assert(holds_line(before, m.plugins[t].name));
                                lemma_holds_line_grow(before, config_drift@,
                                    m.plugins[t].name);
                            } else {
                                let last = config_drift@.len() - 1;
                                assert((config_drift@[last])@ == m.plugins[t].name);
                            }
                        }
                    }
                    i3 = i3 + 1;
                }
                let mut j: usize = s + 1;
                while j < e
                    invariant
                        s < j <= e,
                        m == self@,
                        has_block(m.config),
                        s as int == start_of(m.config),
                        e as int == end_of(m.config),
                        (e as int) < m.config.len(),
                        forall|k: int| 0 <= k < orphan_directives@.len()
                            ==> reports_orphan_directive(m,
                                (#[trigger] orphan_directives@[k])@),
                        forall|t: int| s < t < j
                            && !line_is_active_directive(m.plugins, #[trigger] m.config[t])
                            ==> holds_line(orphan_directives@, m.config[t]),
                    decreases e - j,
                {
                    let ghost before = orphan_directives@;
                    let line = self.config.line_at(j);
                    if !self.line_active(&line) {
                        orphan_directives.push(line);
                        proof {
                            let last = orphan_directives@.len() - 1;
                            assert(start_of(m.config) < (j as int) && (j as int) < end_of(m.config)
                                && (orphan_directives@[last])@ == m.config[j as int]
                                && !line_is_active_directive(m.plugins, m.config[j as int]));
                            assert(reports_orphan_directive(m, (orphan_directives@[last])@));
                        }
                    }
                    proof {
                        assert forall|t: int| s < t < j + 1
                            && !line_is_active_directive(m.plugins, #[trigger] m.config[t])
                            implies holds_line(orphan_directives@, m.config[t]) by {
                            if t < j {
                                assert(holds_line(before, m.config[t]));
                                lemma_holds_line_grow(before, orphan_directives@,
                                    m.config[t]);
                            } else {
                                let last = orphan_directives@.len() - 1;
                                assert((orphan_directives@[last])@ == m.config[t]);
                            }
                        }
                    }
                    j = j + 1;
                }
            },
        }

        let mut missing_trees: Vec<String> = Vec::new();
        let mut i4: usize = 0;
        while i4 < self.remotes.len()
            invariant
                i4 <= self.remotes.len(),
                m == self@,
                fsv == views_of(fs@),
                m.remotes.len() == self.remotes.len(),
                forall|k: int| 0 <= k < missing_trees@.len()
                    ==> reports_missing_tree(m, fsv, (#[trigger] missing_trees@[k])@),
                forall|t: int| 0 <= t < i4
                    && !fsv.contains(remote_tree_path((#[trigger] m.remotes[t]).local_name))
                    ==> holds_line(missing_trees@, m.remotes[t].local_name),
            decreases self.remotes.len() - i4,
        {
            let ghost before = missing_trees@;
            let p = remote_tree_path_exec(&self.remotes[i4].local_name);
            if !fs_contains(fs, &p) {
                missing_trees.push(self.remotes[i4].local_name.clone());
                proof {
                    let last = missing_trees@.len() - 1;
                    assert((i4 as int) < m.remotes.len()
                        && (missing_trees@[last])@ == m.remotes[i4 as int].local_name
                        && !fsv.contains(remote_tree_path(m.remotes[i4 as int].local_name)));
                    assert(reports_missing_tree(m, fsv, (missing_trees@[last])@));
                }
            }
            proof {
                assert forall|t: int| 0 <= t < i4 + 1
                    && !fsv.contains(remote_tree_path((#[trigger] m.remotes[t]).local_name))
                    implies holds_line(missing_trees@, m.remotes[t].local_name) by {
                    if t < i4 {
                        assert(holds_line(before, m.remotes[t].local_name));
                        lemma_holds_line_grow(before, missing_trees@,
                            m.remotes[t].local_name);
                    } else {
                        let last = missing_trees@.len() - 1;
                        assert((missing_trees@[last])@ == m.remotes[t].local_name);
                    }
                }
            }
            i4 = i4 + 1;
        }

        let r = SanityReport {
            missing_block: markers.is_none(),
            orphan_plugins,
            missing_artifacts,
            config_drift,
            orphan_directives,
            missing_trees,
        };
        proof {
            let empty = !r.missing_block && r.orphan_plugins@.len() == 0
                && r.missing_artifacts@.len() == 0 && r.config_drift@.len() == 0
                && r.orphan_directives@.len() == 0 && r.missing_trees@.len() == 0;
            if empty {
                assert forall|t: int| 0 <= t < m.plugins.len()
                    implies has_remote(m.remotes,
                        (#[trigger] m.plugins[t]).origin_remote) by {
                    if !has_remote(m.remotes, m.plugins[t].origin_remote) {
                        assert(holds_line(r.orphan_plugins@, m.plugins[t].name));
                    }
                }
                assert forall|t: int| 0 <= t < m.plugins.len()
                    implies fsv.contains((#[trigger] m.plugins[t]).artifact_path) by {
                    if !fsv.contains(m.plugins[t].artifact_path) {
                        assert(holds_line(r.missing_artifacts@, m.plugins[t].name));
                    }
                }
                assert forall|t: int| 0 <= t < m.plugins.len()
                    && (#[trigger] m.plugins[t]).enabled
                    implies directive_once(m.config, directive_of(m.plugins[t].name)) by {
                    if !directive_once(m.config, directive_of(m.plugins[t].name)) {
                        assert(holds_line(r.config_drift@, m.plugins[t].name));
                    }
                }
                assert forall|t: int| start_of(m.config) < t < end_of(m.config)
                    implies line_is_active_directive(m.plugins,
                        #[trigger] m.config[t]) by {
                    if !line_is_active_directive(m.plugins, m.config[t]) {
                        assert(holds_line(r.orphan_directives@, m.config[t]));
                    }
                }
                assert forall|t: int| 0 <= t < m.remotes.len()
                    implies fsv.contains(remote_tree_path(
                        (#[trigger] m.remotes[t]).local_name)) by {
                    if !fsv.contains(remote_tree_path(m.remotes[t].local_name)) {
                        assert(holds_line(r.missing_trees@, m.remotes[t].local_name));
                    }
                }
                assert(is_sane(m, fsv));
            }
            if is_sane(m, fsv) {
                if r.orphan_plugins@.len() > 0 {
                    assert(reports_orphan_plugin(m, (r.orphan_plugins@[0])@));
                }
                if r.missing_artifacts@.len() > 0 {
                    assert(reports_missing_artifact(m, fsv, (r.missing_artifacts@[0])@));
                }
                if r.config_drift@.len() > 0 {
                    assert(reports_drift(m, (r.config_drift@[0])@));
                }
                if r.orphan_directives@.len() > 0 {
                    assert(reports_orphan_directive(m, (r.orphan_directives@[0])@));
                }
                if r.missing_trees@.len() > 0 {
                    assert(reports_missing_tree(m, fsv, (r.missing_trees@[0])@));
                }
            }
        }
        r
    }

    /// Repairs the state: drops index entries whose remote is gone
    /// (never inventing one from a stray directive), regenerates the
    /// managed block from the surviving index, and returns the paths
    /// whose re-fetch it requests. Once the caller materializes those
    /// paths, the repaired state verifies as sane.
    pub fn nurse(&mut self, fs: &Vec<String>) -> (requests: Vec<String>)
        requires
            old(self).wf(),
        ensures
            final(self).wf(),
            final(self)@ == repair_model(old(self)@),
            views_of(requests@) == repair_requests(old(self)@, views_of(fs@)),
            is_sane(final(self)@, views_of(fs@) + views_of(requests@)),
    {
        let ghost m0 = self@;
        let ghost fsv = views_of(fs@);
        // drop entries whose origin remote no longer exists
        let mut kept: Vec<InstalledPlugin> = Vec::new();
        let mut i: usize = 0;
        while i < self.plugins.len()
            invariant
                i <= self.plugins.len(),
                self@ == m0,
                m0.plugins.len() == self.plugins.len(),
                plugin_views(kept@) == keep_known(m0.plugins.take(i as int), m0.remotes),
            decreases self.plugins.len() - i,
        {
            proof {
                assert(m0.plugins.take(i as int + 1).drop_last() =~= m0.plugins.take(i as int));
                assert(m0.plugins.take(i as int + 1).last() == m0.plugins[i as int]);
            }
            if self.find_remote_idx(&self.plugins[i].origin_remote).is_some() {
                kept.push(self.plugins[i].clone());
                proof {
                    assert(plugin_views(kept@) =~= keep_known(m0.plugins.take(i as int),
                        m0.remotes).push(m0.plugins[i as int]));
                }
            }
            i = i + 1;
        }
        proof {
            assert(m0.plugins.take(m0.plugins.len() as int) =~= m0.plugins);
        }
        self.plugins = kept;
        let ghost kp = keep_known(m0.plugins, m0.remotes);
        // regenerate the managed block from the surviving index
        let mut ds: Vec<String> = Vec::new();
        let mut t: usize = 0;
        while t < self.plugins.len()
            invariant
                t <= self.plugins.len(),
                plugin_views(self.plugins@) == kp,
                kp.len() == self.plugins.len(),
                remote_views(self.remotes@) == m0.remotes,
                self@.config == m0.config,
                self@.root == m0.root,
                views_of(ds@) == directives_of(kp.take(t as int)),
            decreases self.plugins.len() - t,
        {
            proof {
                assert(kp.take(t as int + 1).drop_last() =~= kp.take(t as int));
                assert(kp.take(t as int + 1).last() == kp[t as int]);
            }
            if self.plugins[t].enabled {
                ds.push(directive_line(&self.plugins[t].name));
                proof {
                    assert(views_of(ds@) =~= directives_of(kp.take(t as int))
                        .push(directive_of(kp[t as int].name)));
                }
            }
            t = t + 1;
        }
        proof {
            assert(kp.take(kp.len() as int) =~= kp);
        }
        self.config.set_block(&ds);
        // request what is missing on disk
        let ghost tr = tree_requests(m0.remotes, fsv);
        let mut requests: Vec<String> = Vec::new();
        let mut a: usize = 0;
        while a < self.remotes.len()
            invariant
                a <= self.remotes.len(),
                fsv == views_of(fs@),
                remote_views(self.remotes@) == m0.remotes,
                m0.remotes.len() == self.remotes.len(),
                views_of(requests@) == tree_requests(m0.remotes.take(a as int), fsv),
            decreases self.remotes.len() - a,
        {
            proof {
                assert(m0.remotes.take(a as int + 1).drop_last() =~= m0.remotes.take(a as int));
                assert(m0.remotes.take(a as int + 1).last() == m0.remotes[a as int]);
            }
            let p = remote_tree_path_exec(&self.remotes[a].local_name);
            if !fs_contains(fs, &p) {
                requests.push(p);
                proof {
                    assert(views_of(requests@) =~= tree_requests(m0.remotes.take(a as int), fsv)
                        .push(remote_tree_path(m0.remotes[a as int].local_name)));
                }
            }
            a = a + 1;
        }
        proof {
            assert(m0.remotes.take(m0.remotes.len() as int) =~= m0.remotes);
        }
        let mut b: usize = 0;
        while b < self.plugins.len()
            invariant
                b <= self.plugins.len(),
                fsv == views_of(fs@),
                plugin_views(self.plugins@) == kp,
                kp.len() == self.plugins.len(),
                views_of(requests@) == tr + artifact_requests(kp.take(b as int), fsv),
            decreases self.plugins.len() - b,
        {
            proof {
                assert(kp.take(b as int + 1).drop_last() =~= kp.take(b as int));
                assert(kp.take(b as int + 1).last() == kp[b as int]);
            }
            let p2 = self.plugins[b].artifact_path.clone();
            if !fs_contains(fs, &p2) {
                requests.push(p2);
                proof {
                    assert(views_of(requests@) =~= (tr
                        + artifact_requests(kp.take(b as int), fsv))
                        .push(kp[b as int].artifact_path));
                    assert((tr + artifact_requests(kp.take(b as int), fsv))
                        .push(kp[b as int].artifact_path)
                        =~= tr + artifact_requests(kp.take(b as int), fsv)
                            .push(kp[b as int].artifact_path));
                }
            }
            b = b + 1;
        }
        proof {
            assert(kp.take(kp.len() as int) =~= kp);
            assert(self@ =~= repair_model(m0));
            lemma_nurse_convergence(m0, fsv);
        }
        requests
    }

    /// Records the daemon root and creates the managed block if the
    /// file does not hold one yet. Idempotent on the file.
    pub fn setup(&mut self, root: &String) -> (r: Result<(), CoffeeError>)
        requires
            old(self).wf(),
        ensures
            final(self).wf(),
            r is Ok,
            final(self)@.root == Some(root@),
            final(self)@.remotes == old(self)@.remotes,
            final(self)@.plugins == old(self)@.plugins,
            has_block(old(self)@.config) ==> final(self)@.config == old(self)@.config,
            !has_block(old(self)@.config) ==> final(self)@.config
                == replace_block_spec(old(self)@.config, Seq::empty()),
            has_block(final(self)@.config),
    {
        let ghost m0 = self@;
        self.daemon_root = Some(root.clone());
        self.config.ensure_block();
        proof {
            if !has_block(m0.config) {
                assert(self@.config =~= replace_block_spec(m0.config, Seq::empty()));
            }
            lemma_replace_block_clean(m0.config, Seq::empty());
        }
        Ok(())
    }

    /// Removes the managed block and forgets the daemon root; the rest
    /// of the file is preserved. Enabling declares nothing afterwards.
    pub fn teardown(&mut self, _root: &String) -> (r: Result<(), CoffeeError>)
        requires
            old(self).wf(),
        ensures
            final(self).wf(),
            r is Ok,
            final(self)@.root is None,
            final(self)@.remotes == old(self)@.remotes,
            final(self)@.plugins == old(self)@.plugins,
            has_block(old(self)@.config) ==> final(self)@.config
                == strip_block_spec(old(self)@.config) && !has_block(final(self)@.config),
            !has_block(old(self)@.config) ==> final(self)@.config == old(self)@.config,
    {
        let ghost m0 = self@;
        self.daemon_root = None;
        self.config.strip_block();
        proof {
            if has_block(m0.config) {
                lemma_strip_block_clean(m0.config);
            }
        }
        Ok(())
    }
}

/// Whether a path stands in the list of existing filesystem paths.
fn fs_contains(fs: &Vec<String>, p: &String) -> (r: bool)
    ensures
        r == views_of(fs@).contains(p@),
{
    let ghost fsv = views_of(fs@);
    let mut i: usize = 0;
    let mut found: bool = false;
    while !found && i < fs.len()
        invariant
            i <= fs.len(),
            fsv == views_of(fs@),
            fsv.len() == fs.len(),
            !found ==> forall|j: int| 0 <= j < i ==> #[trigger] fsv[j] != p@,
            found ==> i < fs.len() && fsv[i as int] == p@,
        decreases fs.len() - i, (if found { 0int } else { 1int }),
    {
        if crate::config::string_eq(&fs[i], p) {
            found = true;
        } else {
            proof {
                assert(fsv[i as int] != p@);
            }
            i = i + 1;
        }
    }
    proof {
        if !found {
            if fsv.contains(p@) {
                let w = choose|w: int| 0 <= w < fsv.len() && fsv[w] == p@;
                assert(fsv[w] != p@);
            }
        }
    }
    found
}

/// Whether two manifests advertise exactly the same entries.
fn manifests_eq(a: &Vec<PluginDescriptor>, b: &Vec<PluginDescriptor>) -> (r: bool)
    ensures
        r == (desc_views(a@) == desc_views(b@)),
{
    if a.len() != b.len() {
        proof {
            assert(desc_views(a@).len() != desc_views(b@).len());
        }
        return false;
    }
    let mut i: usize = 0;
    while i < a.len()
        invariant
            i <= a.len(),
            a@.len() == b@.len(),
            forall|j: int| 0 <= j < i ==> desc_views(a@)[j] == desc_views(b@)[j],
        decreases a.len() - i,
    {
        let same = crate::config::string_eq(&a[i].name, &b[i].name)
            && crate::config::string_eq(&a[i].repository_subpath, &b[i].repository_subpath)
            && crate::config::string_eq(&a[i].readme, &b[i].readme)
            && a[i].language_hint == b[i].language_hint;
        if !same {
            proof {
                assert(desc_views(a@)[i as int] != desc_views(b@)[i as int]);
                if desc_views(a@) == desc_views(b@) {
                    assert(desc_views(a@)[i as int] == desc_views(b@)[i as int]);
                }
            }
            return false;
        }
        proof {
            assert(desc_views(a@)[i as int] =~= desc_views(b@)[i as int]);
        }
        i = i + 1;
    }
    proof {
        assert(desc_views(a@) =~= desc_views(b@));
    }
    true
}

/// Whether a manifest advertises the name.
fn manifest_has(m: &Vec<PluginDescriptor>, name: &String) -> (r: bool)
    ensures
        r == desc_has(desc_views(m@), name@),
{
    match find_desc(m, name) {
        Some(_) => true,
        None => {
            proof {
                let dm = desc_views(m@);
                lemma_desc_find(dm, name@, 0);
            }
            false
        },
    }
}

/// The position of the first manifest entry of this name.
fn find_desc(m: &Vec<PluginDescriptor>, name: &String) -> (r: Option<usize>)
    ensures
        match r {
            Some(k) => (k as int) < m@.len() && desc_views(m@)[k as int].name == name@
                && k as int == desc_find(desc_views(m@), name@, 0)
                && desc_has(desc_views(m@), name@),
            None => desc_find(desc_views(m@), name@, 0) == -1
                && !desc_has(desc_views(m@), name@),
        },
{
    let ghost dm = desc_views(m@);
    let mut i: usize = 0;
    let mut found: bool = false;
    while !found && i < m.len()
        invariant
            i <= m.len(),
            dm == desc_views(m@),
            dm.len() == m.len(),
            !found ==> forall|j: int| 0 <= j < i ==> (#[trigger] dm[j]).name != name@,
            found ==> i < m.len() && dm[i as int].name == name@
                && forall|j: int| 0 <= j < i ==> (#[trigger] dm[j]).name != name@,
        decreases m.len() - i, (if found { 0int } else { 1int }),
    {
        if crate::config::string_eq(&m[i].name, name) {
            found = true;
        } else {
            proof {
                assert(dm[i as int].name != name@);
            }
            i = i + 1;
        }
    }
    if found {
        proof {
            lemma_desc_find_is(dm, name@, i as int);
        }
        Some(i)
    } else {
        proof {
            lemma_desc_find(dm, name@, 0);
            if desc_find(dm, name@, 0) >= 0 {
                assert(dm[desc_find(dm, name@, 0)].name != name@);
            }
        }
        None
    }
}

} // verus!
