//! Laws of the toggle state machine, proved over the same models the
//! operations' contracts use.

use vstd::prelude::*;

use crate::coffee::{CoffeeModel, disable_model, enable_model, upgrade_model, wf_model};
use crate::config::has_block;
use crate::types::{
    BuildOutcome, DescModel, PluginModel, lemma_plugin_find, lemma_plugin_find_is, plugin_find,
};

verus! {

/// An upgrade never replaces a working installation with a broken one:
/// a plugin whose rebuild failed keeps its index entry — version and
/// artifact path included — exactly as it was.
pub proof fn lemma_upgrade_fail_safe(
    m: CoffeeModel,
    repo: Seq<char>,
    man: Seq<DescModel>,
    commit: Seq<char>,
    builds: Seq<BuildOutcome>,
    now: u64,
    i: int,
)
    requires
        0 <= i < m.plugins.len(),
        !(builds[i] is Success),
    ensures
        upgrade_model(m, repo, man, commit, builds, now).plugins[i] == m.plugins[i],
{
}

/// Enabling twice is enabling once: the second call finds the plugin
/// already enabled and touches neither the index nor the file.
pub proof fn lemma_enable_idempotent(m: CoffeeModel, name: Seq<char>)
    requires
        wf_model(m),
    ensures
        enable_model(enable_model(m, name), name) == enable_model(m, name),
{
    let i = plugin_find(m.plugins, name, 0);
    lemma_plugin_find(m.plugins, name, 0);
    if i == -1 || m.plugins[i].enabled || !has_block(m.config) {
        assert(enable_model(m, name) == m);
    } else {
        let m1 = enable_model(m, name);
        let ps1 = m.plugins.update(i, PluginModel { enabled: true, ..m.plugins[i] });
        assert(m1.plugins == ps1);
        assert forall|j: int| 0 <= j < i implies (#[trigger] ps1[j]).name != name by {
            assert(ps1[j] == m.plugins[j]);
        }
        lemma_plugin_find_is(ps1, name, i);
        assert(ps1[i].enabled);
        assert(enable_model(m1, name) == m1);
    }
}

/// Disabling twice is disabling once: the mirror law.
pub proof fn lemma_disable_idempotent(m: CoffeeModel, name: Seq<char>)
    requires
        wf_model(m),
    ensures
        disable_model(disable_model(m, name), name) == disable_model(m, name),
{
    let i = plugin_find(m.plugins, name, 0);
    lemma_plugin_find(m.plugins, name, 0);
    if i == -1 || !m.plugins[i].enabled || !has_block(m.config) {
        assert(disable_model(m, name) == m);
    } else {
        let m1 = disable_model(m, name);
        let ps1 = m.plugins.update(i, PluginModel { enabled: false, ..m.plugins[i] });
        assert(m1.plugins == ps1);
        assert forall|j: int| 0 <= j < i implies (#[trigger] ps1[j]).name != name by {
            assert(ps1[j] == m.plugins[j]);
        }
        lemma_plugin_find_is(ps1, name, i);
        assert(!ps1[i].enabled);
        assert(disable_model(m1, name) == m1);
    }
}

} // verus!
