//! Per-distribution update policy and its lookup.
//!
//! A `Config` maps distribution names to a `DistributionSetting`, with a
//! fallback default used when no exact match exists. A small fixed set of
//! infrastructure distributions is excluded by default (all flags false)
//! unless explicitly overridden.

use vstd::prelude::*;

verus! {

/// Update policy for one distribution.
#[derive(Clone, Copy, Debug, PartialEq, Eq, Structural)]
pub struct DistributionSetting {
    /// Whether to update the wsl.conf and resolv.conf files for this distribution.
    pub apply_dns: bool,
    /// If the distribution was previously stopped, shut it down again once the
    /// DNS update is complete.
    pub shutdown: bool,
    /// Automatically patch /etc/wsl.conf to disable generateResolvConf
    /// (triggers a restart of the distribution when the setting changes).
    pub patch_wsl_conf: bool,
}

impl Default for DistributionSetting {
    /// By default DNS is applied and wsl.conf is patched, but the
    /// distribution is not shut down afterwards.
    fn default() -> (r: Self)
        ensures
            r == (DistributionSetting { apply_dns: true, shutdown: false, patch_wsl_conf: true }),
    {
        DistributionSetting { apply_dns: true, shutdown: false, patch_wsl_conf: true }
    }
}

/// Application configuration: notification preference, the fallback policy,
/// and the per-distribution policies.
#[derive(Debug)]
pub struct Config {
    /// Show a notification when a DNS update is applied.
    pub show_notifications: bool,
    /// Fallback settings if no named distribution setting matches.
    pub defaults: DistributionSetting,
    /// Per-distribution settings, looked up by exact name; the first entry
    /// with a matching name wins.
    pub distributions: Vec<(String, DistributionSetting)>,
}

/// The setting that `entries` assigns to `name`: the second component of the
/// first pair whose name matches, or `dflt` when none matches.
pub open spec fn spec_lookup_setting(
    entries: Seq<(String, DistributionSetting)>,
    name: Seq<char>,
    dflt: DistributionSetting,
) -> DistributionSetting
    decreases entries.len(),
{
    if entries.len() == 0 {
        dflt
    } else if entries.first().0@ == name {
        entries.first().1
    } else {
        spec_lookup_setting(entries.drop_first(), name, dflt)
    }
}

/// Distributions that are infrastructure of the virtualization layer itself:
/// excluded from DNS updates unless explicitly overridden.
pub fn default_distributions() -> (r: Vec<(String, DistributionSetting)>)
    ensures
        r@.len() == 2,
        r@[0].0@ == "docker-desktop"@,
        r@[1].0@ == "docker-desktop-data"@,
        r@[0].1 == (DistributionSetting { apply_dns: false, shutdown: false, patch_wsl_conf: false }),
        r@[1].1 == (DistributionSetting { apply_dns: false, shutdown: false, patch_wsl_conf: false }),
{
    let excluded = DistributionSetting { apply_dns: false, shutdown: false, patch_wsl_conf: false };
    let mut map: Vec<(String, DistributionSetting)> = Vec::new();
    map.push((String::from_str("docker-desktop"), excluded));
    map.push((String::from_str("docker-desktop-data"), excluded));
    map
}

impl Default for Config {
    /// Notifications on, default policy as `DistributionSetting::default`,
    /// and the infrastructure distributions excluded.
    fn default() -> (r: Self)
        ensures
            r.show_notifications,
            r.defaults == (DistributionSetting {
                apply_dns: true,
                shutdown: false,
                patch_wsl_conf: true,
            }),
            r.distributions@.len() == 2,
            r.distributions@[0].0@ == "docker-desktop"@,
            r.distributions@[1].0@ == "docker-desktop-data"@,
            r.distributions@[0].1 == (DistributionSetting {
                apply_dns: false,
                shutdown: false,
                patch_wsl_conf: false,
            }),
            r.distributions@[1].1 == (DistributionSetting {
                apply_dns: false,
                shutdown: false,
                patch_wsl_conf: false,
            }),
    {
        Config {
            show_notifications: true,
            defaults: DistributionSetting::default(),
            distributions: default_distributions(),
        }
    }
}

impl Config {
    /// The setting for `distribution`, falling back to the configured default
    /// when no entry carries exactly that name.
    pub fn get_distribution_setting(&self, distribution: &str) -> (r: &DistributionSetting)
        ensures
            *r == spec_lookup_setting(self.distributions@, distribution@, self.defaults),
    {
        let name = String::from_str(distribution);
        let n = self.distributions.len();
        proof {
            assert(self.distributions@.skip(0) =~= self.distributions@);
        }
        let mut i: usize = 0;
        while i < n
            invariant
                0 <= i <= n,
                n == self.distributions@.len(),
                name@ == distribution@,
                spec_lookup_setting(self.distributions@, distribution@, self.defaults)
                    == spec_lookup_setting(
                    self.distributions@.skip(i as int),
                    distribution@,
                    self.defaults,
                ),
            decreases n - i,
        {
            let entry = &self.distributions[i];
            if entry.0 == name {
                assert(self.distributions@.skip(i as int).first() == self.distributions@[i as int]);
                return &entry.1;
            }
            assert(self.distributions@.skip(i as int).drop_first() =~= self.distributions@.skip(
                i as int + 1,
            ));
            i = i + 1;
        }
        assert(self.distributions@.skip(n as int) =~= Seq::<(String, DistributionSetting)>::empty());
        &self.defaults
    }
}

} // verus!
