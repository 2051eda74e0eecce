//! Guest update protocol.
//!
//! Decides, per distribution, which remote operations a synchronization pass
//! performs: patching the guest configuration so the guest stops generating
//! its own resolver file (followed by a restart so the change takes effect),
//! replacing the resolver file under its immutability attribute, and an
//! optional shutdown when the guest was stopped before the update. The
//! decisions are pure; the host binding executes the resulting actions in
//! order against the guest-management tool, stopping at the first failing
//! action whose failure aborts.

use crate::config::{spec_lookup_setting, Config, DistributionSetting};
use crate::dns;
use crate::text::{is_trimmed, newline_free};
use crate::wsl;
use crate::wsl::WslDistribution;
use crate::wslconf::{
    lemma_ini_get_after_set, lemma_ini_roundtrip, lemma_ini_set_wf, lemma_parse_ini_wf,
    parse_ini, spec_ini_get, spec_ini_set, spec_ini_text, spec_parse_ini, wf_doc, wf_entry,
    IniDoc, IniSectionView,
};
use vstd::prelude::*;

verus! {

/// One remote operation of a guest's update, in execution order.
#[derive(Debug, PartialEq)]
pub enum GuestAction {
    /// Write this content into the guest's configuration file.
    WriteWslConf(String),
    /// Terminate the guest environment.
    Terminate,
    /// Clear the immutability attribute of the guest's resolver file.
    ClearResolvReadOnly,
    /// Write this content into the guest's resolver file.
    WriteResolv(String),
    /// Set the immutability attribute of the guest's resolver file.
    SetResolvReadOnly,
}

/// Mathematical model of a `GuestAction`.
pub enum GuestActionView {
    WriteWslConf(Seq<char>),
    Terminate,
    ClearResolvReadOnly,
    WriteResolv(Seq<char>),
    SetResolvReadOnly,
}

impl View for GuestAction {
    type V = GuestActionView;

    open spec fn view(&self) -> GuestActionView {
        match self {
            GuestAction::WriteWslConf(s) => GuestActionView::WriteWslConf(s@),
            GuestAction::Terminate => GuestActionView::Terminate,
            GuestAction::ClearResolvReadOnly => GuestActionView::ClearResolvReadOnly,
            GuestAction::WriteResolv(s) => GuestActionView::WriteResolv(s@),
            GuestAction::SetResolvReadOnly => GuestActionView::SetResolvReadOnly,
        }
    }
}

impl GuestAction {
    /// Whether a failure of this operation fails the guest's update. Clearing
    /// the immutability attribute is best-effort: the resolver file may not
    /// exist yet. Every other failure aborts, and a failure to set the
    /// attribute back signals that the write itself likely did not take
    /// effect.
    pub fn failure_aborts(&self) -> (r: bool)
        ensures
            r == !(self@ is ClearResolvReadOnly),
    {
        match self {
            GuestAction::ClearResolvReadOnly => false,
            _ => true,
        }
    }
}

/// Failure of a synchronization pass or of one guest's update.
#[derive(Debug)]
pub enum Error {
    /// Resolving the host's DNS configuration failed.
    Dns(dns::Error),
    /// A call to the guest-management tool failed.
    Wsl(wsl::Error),
    /// The guest's configuration file could not be parsed.
    WslConfError(String),
}

impl Error {
    /// A short description of the error, for logs.
    pub fn message(&self) -> String {
        match self {
            Error::Dns(e) => e.message(),
            Error::Wsl(e) => e.message(),
            Error::WslConfError(text) => {
                let mut m = String::from_str("guest configuration error: ");
                m.append(text.as_str());
                m
            },
        }
    }
}

/// The view of an optional borrowed configuration text.
pub open spec fn opt_text_view(o: Option<&str>) -> Option<Seq<char>> {
    match o {
        Some(s) => Some(s@),
        None => None,
    }
}

/// What the configuration patch step decides, from the guest configuration
/// text as read (nothing when the file could not be read): `None` when the
/// text does not parse; `Some(None)` when the guest already disables its
/// resolver-file generation; `Some(Some(t))` when the rewritten text `t`
/// must be written into the guest.
pub open spec fn spec_conf_patch(conf: Option<Seq<char>>) -> Option<Option<Seq<char>>> {
    match conf {
        None => Some(
            Some(
                spec_ini_text(
                    spec_ini_set(
                        Seq::empty(),
                        "network"@,
                        "generateResolvConf"@,
                        "false"@,
                    ),
                ),
            ),
        ),
        Some(text) => match spec_parse_ini(text) {
            None => None,
            Some(doc) => if spec_ini_get(doc, "network"@, "generateResolvConf"@) == Some(
                "false"@,
            ) {
                Some(None)
            } else {
                Some(
                    Some(
                        spec_ini_text(
                            spec_ini_set(doc, "network"@, "generateResolvConf"@, "false"@),
                        ),
                    ),
                )
            },
        },
    }
}

/// The literals the patch writes are well-formed configuration text.
proof fn lemma_patch_literals_wf()
    ensures
        is_trimmed("network"@),
        newline_free("network"@),
        wf_entry(("generateResolvConf"@, "false"@)),
{
    reveal_strlit("network");
    reveal_strlit("generateResolvConf");
    reveal_strlit("false");
    assert("network"@ =~= seq!['n', 'e', 't', 'w', 'o', 'r', 'k']);
    assert("generateResolvConf"@ =~= seq![
        'g', 'e', 'n', 'e', 'r', 'a', 't', 'e', 'R', 'e', 's', 'o', 'l', 'v', 'C', 'o', 'n', 'f',
    ]);
    assert("false"@ =~= seq!['f', 'a', 'l', 's', 'e']);
}

/// Applies the serialization and parsing laws to the freshly patched
/// document of one guest.
proof fn lemma_patched_text_settles(doc: Seq<IniSectionView>)
    requires
        wf_doc(doc),
    ensures
        spec_conf_patch(
            Some(spec_ini_text(spec_ini_set(doc, "network"@, "generateResolvConf"@, "false"@))),
        ) == Some(None::<Seq<char>>),
{
    lemma_patch_literals_wf();
    let patched = spec_ini_set(doc, "network"@, "generateResolvConf"@, "false"@);
    lemma_ini_set_wf(doc, "network"@, "generateResolvConf"@, "false"@);
    lemma_ini_roundtrip(patched);
    lemma_ini_get_after_set(doc, "network"@, "generateResolvConf"@, "false"@);
}

/// Law: the configuration patch is idempotent: whenever it decides to write
/// new configuration text into a guest, reading that very text back decides
/// that no further patch is needed. A guest is therefore patched, and
/// restarted for it, at most once.
pub proof fn lemma_conf_patch_idempotent(conf: Option<Seq<char>>)
    ensures
        spec_conf_patch(conf) matches Some(Some(t)) ==> spec_conf_patch(Some(t)) == Some(
            None::<Seq<char>>,
        ),
{
    match conf {
        None => {
            let doc = Seq::<IniSectionView>::empty();
            assert(wf_doc(doc));
            lemma_patched_text_settles(doc);
        },
        Some(text) => {
            match spec_parse_ini(text) {
                Some(doc) => {
                    lemma_parse_ini_wf(text);
                    lemma_patched_text_settles(doc);
                },
                None => {},
            }
        },
    }
}

/// The fixed tail of every applied update: clear the resolver file's
/// immutability attribute (best effort), write the new resolver file, set
/// the attribute back, and terminate the guest when the policy asks for a
/// shutdown and the guest was stopped before the update began.
pub open spec fn spec_resolv_actions(
    setting: DistributionSetting,
    was_stopped: bool,
    resolv: Seq<char>,
) -> Seq<GuestActionView> {
    seq![
        GuestActionView::ClearResolvReadOnly,
        GuestActionView::WriteResolv(resolv),
        GuestActionView::SetResolvReadOnly,
    ] + if setting.shutdown && was_stopped {
        seq![GuestActionView::Terminate]
    } else {
        Seq::empty()
    }
}

/// The remote operations one guest's update performs, in order: none when
/// the policy does not apply DNS; otherwise the configuration patch (with a
/// restart) when asked for and needed, then the resolver file replacement;
/// nothing when the guest configuration does not parse.
pub open spec fn spec_update_plan(
    setting: DistributionSetting,
    was_stopped: bool,
    conf: Option<Seq<char>>,
    resolv: Seq<char>,
) -> Option<Seq<GuestActionView>> {
    if !setting.apply_dns {
        Some(Seq::empty())
    } else if setting.patch_wsl_conf {
        match spec_conf_patch(conf) {
            None => None,
            Some(None) => Some(spec_resolv_actions(setting, was_stopped, resolv)),
            Some(Some(newtext)) => Some(
                seq![GuestActionView::WriteWslConf(newtext), GuestActionView::Terminate]
                    + spec_resolv_actions(setting, was_stopped, resolv),
            ),
        }
    } else {
        Some(spec_resolv_actions(setting, was_stopped, resolv))
    }
}

/// Law: a distribution whose policy has `apply_dns` false gets an empty
/// update plan: no remote operation touches it.
pub proof fn lemma_plan_skips_disabled(
    setting: DistributionSetting,
    was_stopped: bool,
    conf: Option<Seq<char>>,
    resolv: Seq<char>,
)
    requires
        !setting.apply_dns,
    ensures
        spec_update_plan(setting, was_stopped, conf, resolv) == Some(
            Seq::<GuestActionView>::empty(),
        ),
{
}

/// Law: whenever a plan is made for a policy that applies DNS, it writes the
/// rendered resolver text into the guest and sets the immutability attribute
/// afterwards, in that order.
pub proof fn lemma_plan_replaces_resolver(
    setting: DistributionSetting,
    was_stopped: bool,
    conf: Option<Seq<char>>,
    resolv: Seq<char>,
)
    requires
        setting.apply_dns,
    ensures
        spec_update_plan(setting, was_stopped, conf, resolv) matches Some(acts) ==> exists|i: int|
            0 <= i < acts.len() - 1 && #[trigger] acts[i] == GuestActionView::WriteResolv(resolv)
                && acts[i + 1] == GuestActionView::SetResolvReadOnly,
{
    let tail = spec_resolv_actions(setting, was_stopped, resolv);
    assert(tail[1] == GuestActionView::WriteResolv(resolv));
    assert(tail[2] == GuestActionView::SetResolvReadOnly);
    match spec_update_plan(setting, was_stopped, conf, resolv) {
        Some(acts) => {
            if acts == tail {
                assert(acts[1] == GuestActionView::WriteResolv(resolv));
            } else {
                let head = seq![
                    GuestActionView::WriteWslConf(
                        match spec_conf_patch(conf) {
                            Some(Some(t)) => t,
                            _ => arbitrary(),
                        },
                    ),
                    GuestActionView::Terminate,
                ];
                assert(acts == head + tail);
                assert(acts[3] == GuestActionView::WriteResolv(resolv));
                assert(acts[4] == GuestActionView::SetResolvReadOnly);
            }
        },
        None => {},
    }
}

/// Plans one guest's update from its policy, its run state as listed, the
/// guest configuration text as read (nothing when the read failed: the file
/// is then treated as absent and rebuilt), and the rendered resolver text.
pub fn plan_distribution_update(
    setting: &DistributionSetting,
    was_stopped: bool,
    wsl_conf: Option<&str>,
    resolv: &str,
) -> (r: Result<Vec<GuestAction>, Error>)
    ensures
        match r {
            Ok(actions) => spec_update_plan(*setting, was_stopped, opt_text_view(wsl_conf), resolv@)
                == Some(actions@.map_values(|a: GuestAction| a@)),
            Err(e) => spec_update_plan(*setting, was_stopped, opt_text_view(wsl_conf), resolv@)
                is None && e matches Error::WslConfError(_),
        },
{
    let mut actions: Vec<GuestAction> = Vec::new();
    if !setting.apply_dns {
        proof {
            assert(actions@.map_values(|a: GuestAction| a@) =~= Seq::<GuestActionView>::empty());
        }
        return Ok(actions);
    }
    if setting.patch_wsl_conf {
        let patch: Option<String> = match wsl_conf {
            None => {
                let mut doc = IniDoc::new();
                doc.set("network", "generateResolvConf", "false");
                Some(doc.to_text())
            },
            Some(text) => {
                match parse_ini(text) {
                    None => {
                        return Err(
                            Error::WslConfError(
                                String::from_str("could not parse the guest configuration file"),
                            ),
                        );
                    },
                    Some(mut doc) => {
                        let current = doc.get("network", "generateResolvConf");
                        let already = match current {
                            Some(v) => v == String::from_str("false"),
                            None => false,
                        };
                        if already {
                            None
                        } else {
                            doc.set("network", "generateResolvConf", "false");
                            Some(doc.to_text())
                        }
                    },
                }
            },
        };
        match patch {
            Some(newtext) => {
                proof {
                    assert(spec_conf_patch(opt_text_view(wsl_conf)) == Some(Some(newtext@)));
                }
                actions.push(GuestAction::WriteWslConf(newtext));
                actions.push(GuestAction::Terminate);
            },
            None => {
                proof {
                    assert(spec_conf_patch(opt_text_view(wsl_conf)) == Some(
                        None::<Seq<char>>,
                    ));
                }
            },
        }
    }
    let ghost head = actions@.map_values(|a: GuestAction| a@);
    actions.push(GuestAction::ClearResolvReadOnly);
    actions.push(GuestAction::WriteResolv(resolv.to_owned()));
    actions.push(GuestAction::SetResolvReadOnly);
    if setting.shutdown && was_stopped {
        actions.push(GuestAction::Terminate);
    }
    proof {
        assert(actions@.map_values(|a: GuestAction| a@) =~= head + spec_resolv_actions(
            *setting,
            was_stopped,
            resolv@,
        ));
    }
    Ok(actions)
}

/// The distributions one pass updates, each with the policy applied to it:
/// the listed distributions of the supported version whose policy applies
/// DNS, in listing order.
pub open spec fn spec_update_targets(
    dists: Seq<crate::wsl::WslDistributionView>,
    entries: Seq<(String, DistributionSetting)>,
    dflt: DistributionSetting,
) -> Seq<(crate::wsl::WslDistributionView, DistributionSetting)>
    decreases dists.len(),
{
    if dists.len() == 0 {
        Seq::empty()
    } else {
        let rest = spec_update_targets(dists.drop_last(), entries, dflt);
        let d = dists.last();
        let s = spec_lookup_setting(entries, d.name, dflt);
        if d.version == 2 && s.apply_dns {
            rest.push((d, s))
        } else {
            rest
        }
    }
}

/// Selects the distributions a synchronization pass updates: those of the
/// supported version whose policy applies DNS, with that policy, in listing
/// order. Skipped distributions appear in no pair, so no remote operation
/// reaches them.
pub fn update_dns(config: &Config, distributions: &Vec<WslDistribution>) -> (r: Vec<
    (WslDistribution, DistributionSetting),
>)
    ensures
        r@.map_values(|p: (WslDistribution, DistributionSetting)| (p.0@, p.1))
            == spec_update_targets(
            distributions@.map_values(|d: WslDistribution| d@),
            config.distributions@,
            config.defaults,
        ),
{
    let ghost dviews = distributions@.map_values(|d: WslDistribution| d@);
    let mut out: Vec<(WslDistribution, DistributionSetting)> = Vec::new();
    let n = distributions.len();
    proof {
        assert(dviews.take(0) =~= Seq::<crate::wsl::WslDistributionView>::empty());
        assert(out@.map_values(|p: (WslDistribution, DistributionSetting)| (p.0@, p.1))
            =~= Seq::<(crate::wsl::WslDistributionView, DistributionSetting)>::empty());
    }
    let mut i: usize = 0;
    while i < n
        invariant
            0 <= i <= n,
            n == distributions@.len(),
            dviews == distributions@.map_values(|d: WslDistribution| d@),
            out@.map_values(|p: (WslDistribution, DistributionSetting)| (p.0@, p.1))
                == spec_update_targets(
                dviews.take(i as int),
                config.distributions@,
                config.defaults,
            ),
        decreases n - i,
    {
        proof {
            assert(dviews.take(i as int + 1).drop_last() =~= dviews.take(i as int));
            assert(dviews.take(i as int + 1).last() == dviews[i as int]);
            assert(dviews[i as int] == distributions@[i as int]@);
        }
        let d = &distributions[i];
        if d.version == 2 {
            let setting = *config.get_distribution_setting(d.name.as_str());
            if setting.apply_dns {
                let ghost prev = out@.map_values(
                    |p: (WslDistribution, DistributionSetting)| (p.0@, p.1),
                );
                out.push((d.clone(), setting));
                proof {
                    assert(out@.map_values(|p: (WslDistribution, DistributionSetting)| (p.0@, p.1))
                        =~= prev.push((distributions@[i as int]@, setting)));
                }
            }
        }
        i = i + 1;
    }
    proof {
        assert(dviews.take(n as int) =~= dviews);
    }
    out
}

/// Law: every pair a pass updates is a listed distribution of the supported
/// version, carrying exactly the policy the configuration assigns to its
/// name, and that policy applies DNS; conversely, every listed distribution
/// of the supported version whose policy applies DNS is updated.
pub proof fn lemma_update_targets_exact(
    dists: Seq<crate::wsl::WslDistributionView>,
    entries: Seq<(String, DistributionSetting)>,
    dflt: DistributionSetting,
)
    ensures
        forall|k: int|
            0 <= k < spec_update_targets(dists, entries, dflt).len() ==> {
                let p = #[trigger] spec_update_targets(dists, entries, dflt)[k];
                &&& dists.contains(p.0)
                &&& p.0.version == 2
                &&& p.1 == spec_lookup_setting(entries, p.0.name, dflt)
                &&& p.1.apply_dns
            },
        forall|i: int|
            0 <= i < dists.len() && (#[trigger] dists[i]).version == 2 && spec_lookup_setting(
                entries,
                dists[i].name,
                dflt,
            ).apply_dns ==> spec_update_targets(dists, entries, dflt).contains(
                (dists[i], spec_lookup_setting(entries, dists[i].name, dflt)),
            ),
    decreases dists.len(),
{
    if dists.len() > 0 {
        let s0 = dists.drop_last();
        lemma_update_targets_exact(s0, entries, dflt);
        let rest = spec_update_targets(s0, entries, dflt);
        let full = spec_update_targets(dists, entries, dflt);
        assert forall|k: int| 0 <= k < full.len() implies {
            let p = #[trigger] full[k];
            &&& dists.contains(p.0)
            &&& p.0.version == 2
            &&& p.1 == spec_lookup_setting(entries, p.0.name, dflt)
            &&& p.1.apply_dns
        } by {
            if k < rest.len() {
                assert(full[k] == rest[k]);
                assert(s0.contains(rest[k].0));
                let j = choose|j: int| 0 <= j < s0.len() && s0[j] == rest[k].0;
                assert(dists[j] == s0[j]);
            } else {
                assert(full[k] == (dists.last(), spec_lookup_setting(
                    entries,
                    dists.last().name,
                    dflt,
                )));
                assert(dists[dists.len() - 1] == dists.last());
            }
        }
        assert forall|i: int|
            0 <= i < dists.len() && (#[trigger] dists[i]).version == 2 && spec_lookup_setting(
                entries,
                dists[i].name,
                dflt,
            ).apply_dns implies full.contains(
            (dists[i], spec_lookup_setting(entries, dists[i].name, dflt)),
        ) by {
            let p = (dists[i], spec_lookup_setting(entries, dists[i].name, dflt));
            if i < dists.len() - 1 {
                assert(s0[i] == dists[i]);
                assert(rest.contains(p));
                let j = choose|j: int| 0 <= j < rest.len() && rest[j] == p;
                assert(full[j] == p);
            } else {
                assert(full[full.len() - 1] == p);
            }
        }
    }
}

} // verus!
