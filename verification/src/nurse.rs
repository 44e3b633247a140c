//! The consistency model of the nurse subsystem: what a sane state is,
//! what repair produces, and the proof that repair converges.
//!
//! Sanity relates the four stores: every index entry's origin remote
//! is registered, every artifact and cloned tree is present on disk,
//! and the managed block of the configuration file declares exactly
//! the enabled plugins. `verify` reports the failing checks; `repair`
//! applies the minimal corrective actions — drop entries whose remote
//! is gone, regenerate the managed block from the index (the index is
//! the source of truth over the file), and request a re-fetch of every
//! missing tree — and provably reaches a sane state once the requested
//! fetches are done.

use vstd::prelude::*;

use crate::coffee::CoffeeModel;
use crate::config::{
    directive_of, directive_once, end_of, has_block, lemma_directive_injective,
    lemma_directive_not_marker, lemma_find_from, lemma_find_from_is, lemma_find_from_none,
    lemma_replace_block, lemma_replace_block_clean, replace_block_spec, start_of,
};
use crate::types::{
    PluginModel, RemoteModel, has_remote, is_installed, plugin_names_unique, remote_tree_path,
};

verus! {

/// Whether a line is the load directive of some enabled plugin.
pub open spec fn line_is_active_directive(ps: Seq<PluginModel>, l: Seq<char>) -> bool {
    exists|i: int| 0 <= i < ps.len() && (#[trigger] ps[i]).enabled
        && l == directive_of(ps[i].name)
}

/// The sanity judgement: all consistency checks hold of the state
/// together with the set of filesystem paths that exist.
pub open spec fn is_sane(m: CoffeeModel, fs: Seq<Seq<char>>) -> bool {
    &&& has_block(m.config)
    &&& forall|i: int| 0 <= i < m.plugins.len()
        ==> has_remote(m.remotes, (#[trigger] m.plugins[i]).origin_remote)
    &&& forall|i: int| 0 <= i < m.plugins.len()
        ==> fs.contains((#[trigger] m.plugins[i]).artifact_path)
    &&& forall|i: int| 0 <= i < m.plugins.len() && (#[trigger] m.plugins[i]).enabled
        ==> directive_once(m.config, directive_of(m.plugins[i].name))
    &&& forall|j: int| start_of(m.config) < j < end_of(m.config)
        ==> line_is_active_directive(m.plugins, #[trigger] m.config[j])
    &&& forall|i: int| 0 <= i < m.remotes.len()
        ==> fs.contains(remote_tree_path((#[trigger] m.remotes[i]).local_name))
}

/// The index entries whose origin remote is still registered, in
/// order. Repair never invents an entry; it only drops orphans.
pub open spec fn keep_known(ps: Seq<PluginModel>, rs: Seq<RemoteModel>) -> Seq<PluginModel>
    decreases ps.len(),
{
    if ps.len() == 0 {
        Seq::empty()
    } else {
        let rest = keep_known(ps.drop_last(), rs);
        if has_remote(rs, ps.last().origin_remote) {
            rest.push(ps.last())
        } else {
            rest
        }
    }
}

/// The load directives of the enabled plugins, in index order.
pub open spec fn directives_of(ps: Seq<PluginModel>) -> Seq<Seq<char>>
    decreases ps.len(),
{
    if ps.len() == 0 {
        Seq::empty()
    } else {
        let rest = directives_of(ps.drop_last());
        if ps.last().enabled {
            rest.push(directive_of(ps.last().name))
        } else {
            rest
        }
    }
}

/// The clone paths of the remotes whose tree is missing, in order.
pub open spec fn tree_requests(rs: Seq<RemoteModel>, fs: Seq<Seq<char>>) -> Seq<Seq<char>>
    decreases rs.len(),
{
    if rs.len() == 0 {
        Seq::empty()
    } else {
        let rest = tree_requests(rs.drop_last(), fs);
        if fs.contains(remote_tree_path(rs.last().local_name)) {
            rest
        } else {
            rest.push(remote_tree_path(rs.last().local_name))
        }
    }
}

/// The artifact paths of the plugins whose artifact is missing.
pub open spec fn artifact_requests(ps: Seq<PluginModel>, fs: Seq<Seq<char>>) -> Seq<Seq<char>>
    decreases ps.len(),
{
    if ps.len() == 0 {
        Seq::empty()
    } else {
        let rest = artifact_requests(ps.drop_last(), fs);
        if fs.contains(ps.last().artifact_path) {
            rest
        } else {
            rest.push(ps.last().artifact_path)
        }
    }
}

/// The state repair produces: orphaned entries dropped and the managed
/// block regenerated from the surviving index.
pub open spec fn repair_model(m: CoffeeModel) -> CoffeeModel {
    let kept = keep_known(m.plugins, m.remotes);
    CoffeeModel {
        plugins: kept,
        config: replace_block_spec(m.config, directives_of(kept)),
        ..m
    }
}

/// The filesystem paths repair asks the caller to re-fetch.
pub open spec fn repair_requests(m: CoffeeModel, fs: Seq<Seq<char>>) -> Seq<Seq<char>> {
    tree_requests(m.remotes, fs) + artifact_requests(keep_known(m.plugins, m.remotes), fs)
}

/// Every surviving entry has a registered origin; survivors were
/// installed before; unique names stay unique.
pub proof fn lemma_keep_known(ps: Seq<PluginModel>, rs: Seq<RemoteModel>)
    ensures
        forall|k: int| 0 <= k < keep_known(ps, rs).len()
            ==> has_remote(rs, (#[trigger] keep_known(ps, rs)[k]).origin_remote),
        forall|n: Seq<char>| is_installed(#[trigger] keep_known(ps, rs), n)
            ==> is_installed(ps, n),
        plugin_names_unique(ps) ==> plugin_names_unique(keep_known(ps, rs)),
    decreases ps.len(),
{
    if ps.len() > 0 {
        lemma_keep_known(ps.drop_last(), rs);
        let rest = keep_known(ps.drop_last(), rs);
        let all = keep_known(ps, rs);
        assert forall|n: Seq<char>| is_installed(#[trigger] keep_known(ps, rs), n)
            implies is_installed(ps, n) by {
            let k = choose|k: int| 0 <= k < all.len() && all[k].name == n;
            if k < rest.len() {
                assert(rest[k].name == n);
                assert(is_installed(rest, n));
                assert(is_installed(ps.drop_last(), n));
                let j = choose|j: int| 0 <= j < ps.drop_last().len()
                    && ps.drop_last()[j].name == n;
                assert(ps[j].name == n);
            } else {
                assert(all[k] == ps.last());
                assert(ps[ps.len() - 1].name == n);
            }
        }
        if plugin_names_unique(ps) {
            assert(plugin_names_unique(ps.drop_last())) by {
                assert forall|a: int, b: int| 0 <= a < b < ps.drop_last().len()
                    implies ps.drop_last()[a].name != ps.drop_last()[b].name by {
                    assert(ps.drop_last()[a] == ps[a]);
                    assert(ps.drop_last()[b] == ps[b]);
                }
            }
            if has_remote(rs, ps.last().origin_remote) {
                assert forall|a: int, b: int| 0 <= a < b < all.len()
                    implies all[a].name != all[b].name by {
                    if b < rest.len() {
                        assert(all[a] == rest[a] && all[b] == rest[b]);
                    } else {
                        assert(all[b] == ps.last());
                        assert(all[a] == rest[a]);
                        if rest[a].name == ps.last().name {
                            assert(is_installed(rest, ps.last().name));
                            assert(is_installed(ps.drop_last(), ps.last().name));
                            let j = choose|j: int| 0 <= j < ps.drop_last().len()
                                && ps.drop_last()[j].name == ps.last().name;
                            assert(ps[j].name == ps[ps.len() - 1].name);
                        }
                    }
                }
            }
        }
    }
}

/// The regenerated block lists each enabled plugin's directive exactly
/// once, nothing else, and no marker lines.
pub proof fn lemma_directives_of(ps: Seq<PluginModel>)
    requires
        plugin_names_unique(ps),
    ensures
        forall|k: int| 0 <= k < directives_of(ps).len()
            ==> line_is_active_directive(ps, #[trigger] directives_of(ps)[k]),
        forall|i: int| 0 <= i < ps.len() && (#[trigger] ps[i]).enabled
            ==> directives_of(ps).contains(directive_of(ps[i].name)),
        forall|k1: int, k2: int| 0 <= k1 < k2 < directives_of(ps).len()
            ==> directives_of(ps)[k1] != directives_of(ps)[k2],
        forall|k: int| 0 <= k < directives_of(ps).len()
            ==> #[trigger] directives_of(ps)[k] != crate::config::start_marker()
                && directives_of(ps)[k] != crate::config::end_marker(),
    decreases ps.len(),
{
    if ps.len() > 0 {
        assert(plugin_names_unique(ps.drop_last())) by {
            assert forall|a: int, b: int| 0 <= a < b < ps.drop_last().len()
                implies ps.drop_last()[a].name != ps.drop_last()[b].name by {
                assert(ps.drop_last()[a] == ps[a]);
                assert(ps.drop_last()[b] == ps[b]);
            }
        }
        lemma_directives_of(ps.drop_last());
        let rest = directives_of(ps.drop_last());
        let all = directives_of(ps);
        lemma_directive_not_marker(ps.last().name);
        assert forall|k: int| 0 <= k < all.len()
            implies line_is_active_directive(ps, #[trigger] all[k]) by {
            if k < rest.len() {
                assert(all[k] == rest[k]);
                assert(line_is_active_directive(ps.drop_last(), rest[k]));
                let i = choose|i: int| 0 <= i < ps.drop_last().len()
                    && (#[trigger] ps.drop_last()[i]).enabled
                    && rest[k] == directive_of(ps.drop_last()[i].name);
                assert(ps[i] == ps.drop_last()[i]);
                assert(ps[i].enabled && all[k] == directive_of(ps[i].name));
            } else {
                assert(all[k] == directive_of(ps.last().name));
                assert(ps[ps.len() - 1].enabled
                    && all[k] == directive_of(ps[ps.len() - 1].name));
            }
        }
        assert forall|i: int| 0 <= i < ps.len() && (#[trigger] ps[i]).enabled
            implies all.contains(directive_of(ps[i].name)) by {
            if i < ps.len() - 1 {
                assert(ps.drop_last()[i] == ps[i]);
                assert(rest.contains(directive_of(ps[i].name)));
                let k = choose|k: int| 0 <= k < rest.len()
                    && rest[k] == directive_of(ps[i].name);
                assert(all[k] == directive_of(ps[i].name));
            } else {
                assert(all[all.len() - 1] == directive_of(ps[i].name));
            }
        }
        if ps.last().enabled {
            assert forall|k1: int, k2: int| 0 <= k1 < k2 < all.len()
                implies all[k1] != all[k2] by {
                if k2 < rest.len() {
                    assert(all[k1] == rest[k1] && all[k2] == rest[k2]);
                } else {
                    assert(all[k2] == directive_of(ps.last().name));
                    assert(all[k1] == rest[k1]);
                    assert(line_is_active_directive(ps.drop_last(), rest[k1]));
                    let i = choose|i: int| 0 <= i < ps.drop_last().len()
                        && (#[trigger] ps.drop_last()[i]).enabled
                        && rest[k1] == directive_of(ps.drop_last()[i].name);
                    if rest[k1] == all[k2] {
                        lemma_directive_injective(ps.drop_last()[i].name, ps.last().name);
                        assert(ps[i].name == ps[ps.len() - 1].name);
                    }
                }
            }
        }
        assert forall|k: int| 0 <= k < all.len()
            implies #[trigger] all[k] != crate::config::start_marker()
                && all[k] != crate::config::end_marker() by {
            if k < rest.len() {
                assert(all[k] == rest[k]);
            } else {
                assert(all[k] == directive_of(ps.last().name));
            }
        }
    }
}

/// Every remote's tree is present, or requested.
pub proof fn lemma_tree_requests(rs: Seq<RemoteModel>, fs: Seq<Seq<char>>)
    ensures
        forall|i: int| 0 <= i < rs.len()
            ==> fs.contains(remote_tree_path((#[trigger] rs[i]).local_name))
                || tree_requests(rs, fs).contains(remote_tree_path(rs[i].local_name)),
    decreases rs.len(),
{
    if rs.len() > 0 {
        lemma_tree_requests(rs.drop_last(), fs);
        let rest = tree_requests(rs.drop_last(), fs);
        let all = tree_requests(rs, fs);
        assert forall|i: int| 0 <= i < rs.len()
            implies fs.contains(remote_tree_path((#[trigger] rs[i]).local_name))
                || all.contains(remote_tree_path(rs[i].local_name)) by {
            let p = remote_tree_path(rs[i].local_name);
            if i < rs.len() - 1 {
                assert(rs.drop_last()[i] == rs[i]);
                if !fs.contains(p) {
                    let k = choose|k: int| 0 <= k < rest.len() && rest[k] == p;
                    assert(all[k] == p);
                }
            } else {
                if !fs.contains(p) {
                    assert(all[all.len() - 1] == p);
                }
            }
        }
    }
}

/// Every plugin's artifact is present, or requested.
pub proof fn lemma_artifact_requests(ps: Seq<PluginModel>, fs: Seq<Seq<char>>)
    ensures
        forall|i: int| 0 <= i < ps.len()
            ==> fs.contains((#[trigger] ps[i]).artifact_path)
                || artifact_requests(ps, fs).contains(ps[i].artifact_path),
    decreases ps.len(),
{
    if ps.len() > 0 {
        lemma_artifact_requests(ps.drop_last(), fs);
        let rest = artifact_requests(ps.drop_last(), fs);
        let all = artifact_requests(ps, fs);
        assert forall|i: int| 0 <= i < ps.len()
            implies fs.contains((#[trigger] ps[i]).artifact_path)
                || all.contains(ps[i].artifact_path) by {
            let p = ps[i].artifact_path;
            if i < ps.len() - 1 {
                assert(ps.drop_last()[i] == ps[i]);
                if !fs.contains(p) {
                    let k = choose|k: int| 0 <= k < rest.len() && rest[k] == p;
                    assert(all[k] == p);
                }
            } else {
                if !fs.contains(p) {
                    assert(all[all.len() - 1] == p);
                }
            }
        }
    }
}

/// Membership carries into a concatenation.
pub proof fn lemma_contains_cat(a: Seq<Seq<char>>, b: Seq<Seq<char>>, x: Seq<char>)
    requires
        a.contains(x) || b.contains(x),
    ensures
        (a + b).contains(x),
{
    if a.contains(x) {
        let i = choose|i: int| 0 <= i < a.len() && a[i] == x;
        assert((a + b)[i] == x);
    } else {
        let i = choose|i: int| 0 <= i < b.len() && b[i] == x;
        assert((a + b)[a.len() + i] == x);
    }
}

/// Nurse convergence: from any well-formed state, repair followed by
/// the requested re-fetches yields a state that verifies as sane. In
/// particular this covers every state left by a pipeline interrupted
/// at a step boundary.
pub proof fn lemma_nurse_convergence(m: CoffeeModel, fs: Seq<Seq<char>>)
    requires
        crate::coffee::wf_model(m),
    ensures
        crate::coffee::wf_model(repair_model(m)),
        is_sane(repair_model(m), fs + repair_requests(m, fs)),
{
    let kept = keep_known(m.plugins, m.remotes);
    let dirs = directives_of(kept);
    let m2 = repair_model(m);
    let c2 = m2.config;
    let fs2 = fs + repair_requests(m, fs);
    lemma_keep_known(m.plugins, m.remotes);
    lemma_directives_of(kept);
    lemma_replace_block(m.config, dirs);
    lemma_replace_block_clean(m.config, dirs);
    let s2 = start_of(c2);
    let e2 = end_of(c2);
    lemma_find_from(c2, crate::config::start_marker(), 0, c2.len() as int);
    lemma_find_from(c2, crate::config::end_marker(), s2 + 1, c2.len() as int);
    assert(e2 == s2 + 1 + dirs.len());
    assert forall|t: int| 0 <= t < dirs.len() implies c2[s2 + 1 + t] == dirs[t] by {
        assert(crate::config::block_of(c2)[t] == dirs[t]);
    }
    // each enabled survivor is declared exactly once
    assert forall|i: int| 0 <= i < kept.len() && (#[trigger] kept[i]).enabled
        implies directive_once(c2, directive_of(kept[i].name)) by {
        let d = directive_of(kept[i].name);
        assert(dirs.contains(d));
        let k = choose|k: int| 0 <= k < dirs.len() && dirs[k] == d;
        assert forall|j: int| s2 + 1 <= j < s2 + 1 + k implies c2[j] != d by {
            assert(c2[j] == dirs[j - (s2 + 1)]);
        }
        lemma_find_from_is(c2, d, s2 + 1, e2, s2 + 1 + k);
        assert forall|j: int| s2 + 1 + k + 1 <= j < e2 implies c2[j] != d by {
            assert(c2[j] == dirs[j - (s2 + 1)]);
        }
        lemma_find_from_none(c2, d, s2 + 1 + k + 1, e2);
    }
    // every block line is some enabled survivor's directive
    assert forall|j: int| s2 < j < e2
        implies line_is_active_directive(m2.plugins, #[trigger] c2[j]) by {
        assert(c2[j] == dirs[j - (s2 + 1)]);
        let i = choose|i: int| 0 <= i < kept.len() && (#[trigger] kept[i]).enabled
            && dirs[j - (s2 + 1)] == directive_of(kept[i].name);
        assert(0 <= i < m2.plugins.len() && m2.plugins[i].enabled
            && c2[j] == directive_of(m2.plugins[i].name));
    }
    // artifacts and trees: present or requested
    lemma_artifact_requests(kept, fs);
    lemma_tree_requests(m.remotes, fs);
    assert forall|i: int| 0 <= i < m2.plugins.len()
        implies fs2.contains((#[trigger] m2.plugins[i]).artifact_path) by {
        let p = m2.plugins[i].artifact_path;
        if fs.contains(p) {
            lemma_contains_cat(fs, repair_requests(m, fs), p);
        } else {
            assert(artifact_requests(kept, fs).contains(p));
            lemma_contains_cat(tree_requests(m.remotes, fs), artifact_requests(kept, fs), p);
            lemma_contains_cat(fs, repair_requests(m, fs), p);
        }
    }
    assert forall|i: int| 0 <= i < m2.remotes.len()
        implies fs2.contains(remote_tree_path((#[trigger] m2.remotes[i]).local_name)) by {
        let p = remote_tree_path(m2.remotes[i].local_name);
        if fs.contains(p) {
            lemma_contains_cat(fs, repair_requests(m, fs), p);
        } else {
            assert(tree_requests(m.remotes, fs).contains(p));
            lemma_contains_cat(tree_requests(m.remotes, fs), artifact_requests(kept, fs), p);
            lemma_contains_cat(fs, repair_requests(m, fs), p);
        }
    }
}

/// Whether some list entry's characters are exactly `x`.
pub open spec fn holds_line(l: Seq<String>, x: Seq<char>) -> bool {
    exists|k: int| 0 <= k < l.len() && (#[trigger] l[k])@ == x
}

/// A list that keeps its entries and only grows keeps what it holds.
pub proof fn lemma_holds_line_grow(l: Seq<String>, l2: Seq<String>, x: Seq<char>)
    requires
        holds_line(l, x),
        l.len() <= l2.len(),
        forall|k: int| 0 <= k < l.len() ==> #[trigger] l2[k] == l[k],
    ensures
        holds_line(l2, x),
{
    let k = choose|k: int| 0 <= k < l.len() && (#[trigger] l[k])@ == x;
    assert((l2[k])@ == x);
}

/// `x` names an installed plugin whose origin remote is unregistered.
pub open spec fn reports_orphan_plugin(m: CoffeeModel, x: Seq<char>) -> bool {
    exists|t: int| 0 <= t < m.plugins.len() && x == (#[trigger] m.plugins[t]).name
        && !has_remote(m.remotes, m.plugins[t].origin_remote)
}

/// `x` names an installed plugin whose artifact path does not exist.
pub open spec fn reports_missing_artifact(m: CoffeeModel, fs: Seq<Seq<char>>, x: Seq<char>) -> bool {
    exists|t: int| 0 <= t < m.plugins.len() && x == (#[trigger] m.plugins[t]).name
        && !fs.contains(m.plugins[t].artifact_path)
}

/// `x` names an enabled plugin that is not declared exactly once.
pub open spec fn reports_drift(m: CoffeeModel, x: Seq<char>) -> bool {
    exists|t: int| 0 <= t < m.plugins.len() && x == (#[trigger] m.plugins[t]).name
        && m.plugins[t].enabled && has_block(m.config)
        && !directive_once(m.config, directive_of(m.plugins[t].name))
}

/// `x` is a block line that is no enabled plugin's directive.
pub open spec fn reports_orphan_directive(m: CoffeeModel, x: Seq<char>) -> bool {
    exists|j: int| start_of(m.config) < j < end_of(m.config) && x == #[trigger] m.config[j]
        && !line_is_active_directive(m.plugins, m.config[j])
}

/// `x` names a remote whose cloned source tree does not exist.
pub open spec fn reports_missing_tree(m: CoffeeModel, fs: Seq<Seq<char>>, x: Seq<char>) -> bool {
    exists|t: int| 0 <= t < m.remotes.len() && x == (#[trigger] m.remotes[t]).local_name
        && !fs.contains(remote_tree_path(m.remotes[t].local_name))
}

/// The report of `nurse verify`: the set of failing checks, named.
pub struct SanityReport {
    /// The configuration file has no managed block.
    pub missing_block: bool,
    /// Installed plugins whose origin remote is not registered.
    pub orphan_plugins: Vec<String>,
    /// Installed plugins whose artifact path does not exist.
    pub missing_artifacts: Vec<String>,
    /// Enabled plugins without exactly one directive in the block.
    pub config_drift: Vec<String>,
    /// Block lines that are no enabled plugin's directive.
    pub orphan_directives: Vec<String>,
    /// Remotes whose cloned source tree does not exist.
    pub missing_trees: Vec<String>,
}

impl SanityReport {
    /// Sanity holds exactly when no check failed.
    pub fn is_sane(&self) -> (r: bool)
        ensures
            r == (!self.missing_block && self.orphan_plugins@.len() == 0
                && self.missing_artifacts@.len() == 0 && self.config_drift@.len() == 0
                && self.orphan_directives@.len() == 0 && self.missing_trees@.len() == 0),
    {
        !self.missing_block && self.orphan_plugins.len() == 0
            && self.missing_artifacts.len() == 0 && self.config_drift.len() == 0
            && self.orphan_directives.len() == 0 && self.missing_trees.len() == 0
    }
}

} // verus!
