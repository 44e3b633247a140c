//! Data model of the engine: remotes, plugin descriptors, installed
//! plugins, collaborator outcomes, and their mathematical models.

use vstd::prelude::*;

verus! {

/// The character sequences of a sequence of strings, line by line.
pub open spec fn views_of(s: Seq<String>) -> Seq<Seq<char>> {
    Seq::new(s.len(), |i: int| s[i]@)
}

/// What a remote says about how a plugin is meant to be run.
#[derive(Clone, Copy, Debug, PartialEq, Eq, Structural)]
pub enum LanguageHint {
    /// The source is directly runnable without a compile step.
    Interpreted,
    /// The source must be built into an artifact first.
    Compiled,
}

/// How an installed plugin was materialized.
#[derive(Clone, Copy, Debug, PartialEq, Eq, Structural)]
pub enum InstallMode {
    Dynamic,
    Compiled,
}

/// One entry of a remote's manifest: a plugin the remote advertises.
pub struct PluginDescriptor {
    pub name: String,
    pub repository_subpath: String,
    pub language_hint: LanguageHint,
    pub readme: String,
}

/// Mathematical model of a manifest entry.
#[verifier::ext_equal]
pub ghost struct DescModel {
    pub name: Seq<char>,
    pub repository_subpath: Seq<char>,
    pub language_hint: LanguageHint,
    pub readme: Seq<char>,
}

impl View for PluginDescriptor {
    type V = DescModel;

    open spec fn view(&self) -> DescModel {
        DescModel {
            name: self.name@,
            repository_subpath: self.repository_subpath@,
            language_hint: self.language_hint,
            readme: self.readme@,
        }
    }
}

/// Models of a sequence of manifest entries.
pub open spec fn desc_views(s: Seq<PluginDescriptor>) -> Seq<DescModel> {
    Seq::new(s.len(), |i: int| s[i]@)
}

/// An operator-registered source of plugins.
pub struct Remote {
    pub local_name: String,
    pub url: String,
    pub manifest: Vec<PluginDescriptor>,
    pub last_synced: u64,
}

/// Mathematical model of a remote.
#[verifier::ext_equal]
pub ghost struct RemoteModel {
    pub local_name: Seq<char>,
    pub url: Seq<char>,
    pub manifest: Seq<DescModel>,
    pub last_synced: u64,
}

impl View for Remote {
    type V = RemoteModel;

    open spec fn view(&self) -> RemoteModel {
        RemoteModel {
            local_name: self.local_name@,
            url: self.url@,
            manifest: desc_views(self.manifest@),
            last_synced: self.last_synced,
        }
    }
}

/// Models of a sequence of remotes.
pub open spec fn remote_views(s: Seq<Remote>) -> Seq<RemoteModel> {
    Seq::new(s.len(), |i: int| s[i]@)
}

/// One entry of the plugin index: an installed plugin.
pub struct InstalledPlugin {
    pub name: String,
    pub origin_remote: String,
    pub resolved_version: String,
    pub artifact_path: String,
    pub install_mode: InstallMode,
    pub enabled: bool,
    pub installed_at: u64,
    pub tip_total_msat: u64,
}

/// Mathematical model of an installed plugin.
#[verifier::ext_equal]
pub ghost struct PluginModel {
    pub name: Seq<char>,
    pub origin_remote: Seq<char>,
    pub resolved_version: Seq<char>,
    pub artifact_path: Seq<char>,
    pub install_mode: InstallMode,
    pub enabled: bool,
    pub installed_at: u64,
    pub tip_total_msat: u64,
}

impl View for InstalledPlugin {
    type V = PluginModel;

    open spec fn view(&self) -> PluginModel {
        PluginModel {
            name: self.name@,
            origin_remote: self.origin_remote@,
            resolved_version: self.resolved_version@,
            artifact_path: self.artifact_path@,
            install_mode: self.install_mode,
            enabled: self.enabled,
            installed_at: self.installed_at,
            tip_total_msat: self.tip_total_msat,
        }
    }
}

/// Models of a sequence of installed plugins.
pub open spec fn plugin_views(s: Seq<InstalledPlugin>) -> Seq<PluginModel> {
    Seq::new(s.len(), |i: int| s[i]@)
}

/// What the fetch collaborator reported for one plugin source tree.
pub enum FetchOutcome {
    /// The tree was materialized; the field is the resolved commit or
    /// version identifier.
    Fetched(String),
    /// The fetch failed; the field carries the cause.
    Failed(String),
}

/// What the build collaborator reported. For a dynamic installation
/// this is the outcome of validating that the source is directly
/// runnable; for a compiled one, of the build itself.
pub enum BuildOutcome {
    Success,
    Failure(String),
}

/// What refreshing a remote reported: a fresh manifest together with
/// the commit the remote is at, or a failure.
pub enum RefreshOutcome {
    Refreshed(Vec<PluginDescriptor>, String),
    Failed(String),
}

/// The terminal state of one upgrade run.
#[derive(Clone, Copy, Debug, PartialEq, Eq, Structural)]
pub enum UpgradeStatus {
    /// The remote's manifest did not change and every installed plugin
    /// from it was already at the refreshed version.
    UpToDate,
    Updated,
}

/// The per-remote report of an upgrade run.
pub struct UpgradeOutcome {
    pub repo: String,
    pub status: UpgradeStatus,
    /// Plugins whose rebuild failed, each with the collaborator's
    /// output; the previous installation of each is left untouched.
    pub failed: Vec<(String, String)>,
}

/// The report of a tip operation.
#[derive(Clone, Copy, Debug, PartialEq, Eq, Structural)]
pub struct TipOutcome {
    /// Whether the payment collaborator confirmed the payment.
    pub confirmed: bool,
    /// The recorded tip total of the plugin after the call.
    pub total_msat: u64,
}

// ---------------------------------------------------------------------
// Resolution across remotes.

/// Whether a manifest advertises a plugin of this name.
pub open spec fn desc_has(m: Seq<DescModel>, name: Seq<char>) -> bool {
    exists|k: int| 0 <= k < m.len() && m[k].name == name
}

/// The first manifest entry of this name at or after position `i`,
/// or `-1` if there is none.
pub open spec fn desc_find(m: Seq<DescModel>, name: Seq<char>, i: int) -> int
    decreases m.len() - i,
{
    if i < 0 || i >= m.len() {
        -1
    } else if m[i].name == name {
        i
    } else {
        desc_find(m, name, i + 1)
    }
}

pub proof fn lemma_desc_find(m: Seq<DescModel>, name: Seq<char>, i: int)
    requires
        0 <= i,
    ensures
        desc_find(m, name, i) >= -1,
        desc_find(m, name, i) == -1 ==> forall|j: int| i <= j < m.len()
            ==> (#[trigger] m[j]).name != name,
        desc_find(m, name, i) >= 0 ==> i <= desc_find(m, name, i) < m.len()
            && m[desc_find(m, name, i)].name == name
            && forall|j: int| i <= j < desc_find(m, name, i) ==> (#[trigger] m[j]).name != name,
    decreases m.len() - i,
{
    if i < m.len() && m[i].name != name {
        lemma_desc_find(m, name, i + 1);
    }
}

/// A first occurrence pins `desc_find` down.
pub proof fn lemma_desc_find_is(m: Seq<DescModel>, name: Seq<char>, k: int)
    requires
        0 <= k < m.len(),
        m[k].name == name,
        forall|j: int| 0 <= j < k ==> (#[trigger] m[j]).name != name,
    ensures
        desc_find(m, name, 0) == k,
{
    lemma_desc_find(m, name, 0);
    let r = desc_find(m, name, 0);
    if r == -1 {
        assert(m[k].name != name);
    } else {
        if r < k {
            assert(m[r].name != name);
        }
        if k < r {
            assert(m[k].name != name);
        }
    }
}

/// Whether a remote advertises a plugin of this name.
pub open spec fn advertises(r: RemoteModel, name: Seq<char>) -> bool {
    desc_has(r.manifest, name)
}

/// The indices, in registry order, of every remote that advertises the
/// name.
pub open spec fn providers(rs: Seq<RemoteModel>, name: Seq<char>) -> Seq<int>
    decreases rs.len(),
{
    if rs.len() == 0 {
        Seq::empty()
    } else {
        let rest = providers(rs.drop_last(), name);
        if advertises(rs.last(), name) {
            rest.push(rs.len() - 1)
        } else {
            rest
        }
    }
}

/// The local names, in registry order, of every remote that advertises
/// the name.
pub open spec fn provider_names(rs: Seq<RemoteModel>, name: Seq<char>) -> Seq<Seq<char>> {
    Seq::new(providers(rs, name).len(), |k: int| rs[providers(rs, name)[k]].local_name)
}

/// `providers` lists exactly the advertising remotes, in strictly
/// increasing order of their registry position.
pub proof fn lemma_providers(rs: Seq<RemoteModel>, name: Seq<char>)
    ensures
        forall|k: int| 0 <= k < providers(rs, name).len()
            ==> 0 <= #[trigger] providers(rs, name)[k] < rs.len()
                && advertises(rs[providers(rs, name)[k]], name),
        forall|i: int| 0 <= i < rs.len() && advertises(rs[i], name)
            ==> providers(rs, name).contains(i),
        forall|k1: int, k2: int| 0 <= k1 < k2 < providers(rs, name).len()
            ==> providers(rs, name)[k1] < providers(rs, name)[k2],
    decreases rs.len(),
{
    if rs.len() > 0 {
        lemma_providers(rs.drop_last(), name);
        let rest = providers(rs.drop_last(), name);
        let all = providers(rs, name);
        assert forall|i: int| 0 <= i < rs.len() && advertises(rs[i], name)
            implies all.contains(i) by {
            if i < rs.len() - 1 {
                assert(rs.drop_last()[i] == rs[i]);
                assert(rest.contains(i));
                let k = choose|k: int| 0 <= k < rest.len() && rest[k] == i;
                assert(all[k] == i);
            } else {
                assert(rs.last() == rs[i]);
                assert(all[all.len() - 1] == i);
            }
        }
        assert forall|k: int| 0 <= k < all.len()
            implies 0 <= #[trigger] all[k] < rs.len() && advertises(rs[all[k]], name) by {
            if k < rest.len() {
                assert(all[k] == rest[k]);
                assert(rs.drop_last()[rest[k]] == rs[rest[k]]);
            } else {
                assert(all[k] == rs.len() - 1);
                assert(rs.last() == rs[rs.len() - 1]);
            }
        }
    }
}

// ---------------------------------------------------------------------
// The plugin index and the remote registry as models.

/// No two index entries share a name (names are a global key).
pub open spec fn plugin_names_unique(ps: Seq<PluginModel>) -> bool {
    forall|i: int, j: int| 0 <= i < j < ps.len() ==> ps[i].name != ps[j].name
}

/// No two remotes share a local name.
pub open spec fn remote_names_unique(rs: Seq<RemoteModel>) -> bool {
    forall|i: int, j: int| 0 <= i < j < rs.len() ==> rs[i].local_name != rs[j].local_name
}

/// Whether a plugin of this name is installed.
pub open spec fn is_installed(ps: Seq<PluginModel>, name: Seq<char>) -> bool {
    exists|i: int| 0 <= i < ps.len() && ps[i].name == name
}

/// The first index entry of this name at or after position `i`, or
/// `-1` if there is none.
pub open spec fn plugin_find(ps: Seq<PluginModel>, name: Seq<char>, i: int) -> int
    decreases ps.len() - i,
{
    if i < 0 || i >= ps.len() {
        -1
    } else if ps[i].name == name {
        i
    } else {
        plugin_find(ps, name, i + 1)
    }
}

pub proof fn lemma_plugin_find(ps: Seq<PluginModel>, name: Seq<char>, i: int)
    requires
        0 <= i,
    ensures
        plugin_find(ps, name, i) >= -1,
        plugin_find(ps, name, i) == -1 ==> forall|j: int| i <= j < ps.len()
            ==> (#[trigger] ps[j]).name != name,
        plugin_find(ps, name, i) >= 0 ==> i <= plugin_find(ps, name, i) < ps.len()
            && ps[plugin_find(ps, name, i)].name == name
            && forall|j: int| i <= j < plugin_find(ps, name, i)
                ==> (#[trigger] ps[j]).name != name,
    decreases ps.len() - i,
{
    if i < ps.len() && ps[i].name != name {
        lemma_plugin_find(ps, name, i + 1);
    }
}

/// A first occurrence pins `plugin_find` down.
pub proof fn lemma_plugin_find_is(ps: Seq<PluginModel>, name: Seq<char>, k: int)
    requires
        0 <= k < ps.len(),
        ps[k].name == name,
        forall|j: int| 0 <= j < k ==> (#[trigger] ps[j]).name != name,
    ensures
        plugin_find(ps, name, 0) == k,
{
    lemma_plugin_find(ps, name, 0);
    let r = plugin_find(ps, name, 0);
    if r == -1 {
        assert(ps[k].name != name);
    } else {
        if r < k {
            assert(ps[r].name != name);
        }
        if k < r {
            assert(ps[k].name != name);
        }
    }
}

/// Whether a remote of this local name is registered.
pub open spec fn has_remote(rs: Seq<RemoteModel>, name: Seq<char>) -> bool {
    exists|i: int| 0 <= i < rs.len() && rs[i].local_name == name
}

/// The first remote of this local name at or after position `i`, or
/// `-1` if there is none.
pub open spec fn remote_find(rs: Seq<RemoteModel>, name: Seq<char>, i: int) -> int
    decreases rs.len() - i,
{
    if i < 0 || i >= rs.len() {
        -1
    } else if rs[i].local_name == name {
        i
    } else {
        remote_find(rs, name, i + 1)
    }
}

pub proof fn lemma_remote_find(rs: Seq<RemoteModel>, name: Seq<char>, i: int)
    requires
        0 <= i,
    ensures
        remote_find(rs, name, i) >= -1,
        remote_find(rs, name, i) == -1 ==> forall|j: int| i <= j < rs.len()
            ==> (#[trigger] rs[j]).local_name != name,
        remote_find(rs, name, i) >= 0 ==> i <= remote_find(rs, name, i) < rs.len()
            && rs[remote_find(rs, name, i)].local_name == name
            && forall|j: int| i <= j < remote_find(rs, name, i)
                ==> (#[trigger] rs[j]).local_name != name,
    decreases rs.len() - i,
{
    if i < rs.len() && rs[i].local_name != name {
        lemma_remote_find(rs, name, i + 1);
    }
}

/// A first occurrence pins `remote_find` down.
pub proof fn lemma_remote_find_is(rs: Seq<RemoteModel>, name: Seq<char>, k: int)
    requires
        0 <= k < rs.len(),
        rs[k].local_name == name,
        forall|j: int| 0 <= j < k ==> (#[trigger] rs[j]).local_name != name,
    ensures
        remote_find(rs, name, 0) == k,
{
    lemma_remote_find(rs, name, 0);
    let r = remote_find(rs, name, 0);
    if r == -1 {
        assert(rs[k].local_name != name);
    } else {
        if r < k {
            assert(rs[r].local_name != name);
        }
        if k < r {
            assert(rs[k].local_name != name);
        }
    }
}

/// No two entries of one manifest share a name.
pub open spec fn manifest_names_unique(m: Seq<DescModel>) -> bool {
    forall|i: int, j: int| 0 <= i < j < m.len() ==> m[i].name != m[j].name
}

// ---------------------------------------------------------------------
// Deterministic local paths.

/// Where a plugin's source tree and artifact are materialized, keyed
/// by remote and plugin name.
pub open spec fn plugin_tree_path(origin: Seq<char>, name: Seq<char>) -> Seq<char> {
    "plugins/"@ + origin + "/"@ + name
}

/// Where a remote's own clone lives, keyed by its local name.
pub open spec fn remote_tree_path(name: Seq<char>) -> Seq<char> {
    "remotes/"@ + name
}

impl Clone for PluginDescriptor {
    /// A deep copy with the same model.
    fn clone(&self) -> (r: Self)
        ensures
            r@ == self@,
    {
        PluginDescriptor {
            name: self.name.clone(),
            repository_subpath: self.repository_subpath.clone(),
            language_hint: self.language_hint,
            readme: self.readme.clone(),
        }
    }
}

impl Clone for InstalledPlugin {
    /// A deep copy with the same model.
    fn clone(&self) -> (r: Self)
        ensures
            r@ == self@,
    {
        InstalledPlugin {
            name: self.name.clone(),
            origin_remote: self.origin_remote.clone(),
            resolved_version: self.resolved_version.clone(),
            artifact_path: self.artifact_path.clone(),
            install_mode: self.install_mode,
            enabled: self.enabled,
            installed_at: self.installed_at,
            tip_total_msat: self.tip_total_msat,
        }
    }
}

impl Clone for Remote {
    /// A deep copy with the same model.
    fn clone(&self) -> (r: Self)
        ensures
            r@ == self@,
    {
        let mut manifest: Vec<PluginDescriptor> = Vec::new();
        let mut i: usize = 0;
        while i < self.manifest.len()
            invariant
                i <= self.manifest.len(),
                manifest@.len() == i,
                forall|j: int| 0 <= j < i ==> #[trigger] manifest@[j]@ == self.manifest@[j]@,
            decreases self.manifest.len() - i,
        {
            manifest.push(self.manifest[i].clone());
            i = i + 1;
        }
        let r = Remote {
            local_name: self.local_name.clone(),
            url: self.url.clone(),
            manifest,
            last_synced: self.last_synced,
        };
        proof {
            assert(desc_views(r.manifest@) =~= desc_views(self.manifest@));
        }
        r
    }
}

/// Builds the materialization path of a plugin.
pub fn plugin_tree_path_exec(origin: &String, name: &String) -> (r: String)
    ensures
        r@ == plugin_tree_path(origin@, name@),
{
    let mut r = String::new();
    r.append("plugins/");
    r.append(origin.as_str());
    r.append("/");
    r.append(name.as_str());
    r
}

/// Builds the clone path of a remote.
pub fn remote_tree_path_exec(name: &String) -> (r: String)
    ensures
        r@ == remote_tree_path(name@),
{
    let mut r = String::new();
    r.append("remotes/");
    r.append(name.as_str());
    r
}

} // verus!
