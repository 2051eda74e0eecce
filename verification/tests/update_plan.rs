use wsl_dns_agent::config::{Config, DistributionSetting};
use wsl_dns_agent::dns::Error as DnsError;
use wsl_dns_agent::update::{plan_distribution_update, update_dns, Error, GuestAction};
use wsl_dns_agent::wsl::Error as WslError;
use wsl_dns_agent::wsl::WslDistribution;

fn dist(name: &str, status: &str, version: u32) -> WslDistribution {
    WslDistribution { name: name.to_string(), status: status.to_string(), version }
}

fn setting(apply_dns: bool, shutdown: bool, patch_wsl_conf: bool) -> DistributionSetting {
    DistributionSetting { apply_dns, shutdown, patch_wsl_conf }
}

#[test]
fn disabled_policy_plans_no_operation() {
    let s = setting(false, true, true);
    let plan = plan_distribution_update(&s, true, None, "resolv").unwrap();
    assert!(plan.is_empty());
}

#[test]
fn missing_conf_is_patched_and_guest_restarted() {
    let s = setting(true, false, true);
    let plan = plan_distribution_update(&s, false, None, "resolv text").unwrap();
    assert_eq!(
        plan,
        vec![
            GuestAction::WriteWslConf("[network]\ngenerateResolvConf=false\n".to_string()),
            GuestAction::Terminate,
            GuestAction::ClearResolvReadOnly,
            GuestAction::WriteResolv("resolv text".to_string()),
            GuestAction::SetResolvReadOnly,
        ]
    );
}

#[test]
fn conf_already_disabled_skips_the_patch() {
    let s = setting(true, false, true);
    let conf = "[network]\ngenerateResolvConf=false\n";
    let plan = plan_distribution_update(&s, false, Some(conf), "r").unwrap();
    assert_eq!(
        plan,
        vec![
            GuestAction::ClearResolvReadOnly,
            GuestAction::WriteResolv("r".to_string()),
            GuestAction::SetResolvReadOnly,
        ]
    );
}

#[test]
fn conf_with_generation_enabled_is_rewritten() {
    let s = setting(true, false, true);
    let conf = "[boot]\nsystemd=true\n[network]\ngenerateResolvConf=true\n";
    let plan = plan_distribution_update(&s, false, Some(conf), "r").unwrap();
    assert_eq!(
        plan,
        vec![
            GuestAction::WriteWslConf(
                "[boot]\nsystemd=true\n[network]\ngenerateResolvConf=false\n".to_string()
            ),
            GuestAction::Terminate,
            GuestAction::ClearResolvReadOnly,
            GuestAction::WriteResolv("r".to_string()),
            GuestAction::SetResolvReadOnly,
        ]
    );
}

#[test]
fn patching_disabled_leaves_conf_alone() {
    let s = setting(true, false, false);
    let plan = plan_distribution_update(&s, false, None, "r").unwrap();
    assert_eq!(
        plan,
        vec![
            GuestAction::ClearResolvReadOnly,
            GuestAction::WriteResolv("r".to_string()),
            GuestAction::SetResolvReadOnly,
        ]
    );
}

#[test]
fn unparsable_conf_fails_the_guest_update() {
    let s = setting(true, false, true);
    let r = plan_distribution_update(&s, false, Some("not an ini line\n"), "r");
    assert!(matches!(r, Err(Error::WslConfError(_))));
}

#[test]
fn stopped_guest_with_shutdown_policy_is_terminated_last() {
    let s = setting(true, true, false);
    let plan = plan_distribution_update(&s, true, None, "r").unwrap();
    assert_eq!(
        plan,
        vec![
            GuestAction::ClearResolvReadOnly,
            GuestAction::WriteResolv("r".to_string()),
            GuestAction::SetResolvReadOnly,
            GuestAction::Terminate,
        ]
    );
}

#[test]
fn running_guest_is_not_shut_down_even_with_shutdown_policy() {
    let s = setting(true, true, false);
    let plan = plan_distribution_update(&s, false, None, "r").unwrap();
    assert_eq!(
        plan,
        vec![
            GuestAction::ClearResolvReadOnly,
            GuestAction::WriteResolv("r".to_string()),
            GuestAction::SetResolvReadOnly,
        ]
    );
}

#[test]
fn a_second_pass_plans_no_further_patch() {
    // The text the first pass writes parses back as already disabled, so the
    // guest is patched and restarted at most once.
    let s = setting(true, false, true);
    let first = plan_distribution_update(&s, false, None, "r").unwrap();
    let written = match &first[0] {
        GuestAction::WriteWslConf(text) => text.clone(),
        other => panic!("expected a configuration write first, got {:?}", other),
    };
    assert!(matches!(first[1], GuestAction::Terminate));
    let second = plan_distribution_update(&s, false, Some(&written), "r").unwrap();
    assert_eq!(
        second,
        vec![
            GuestAction::ClearResolvReadOnly,
            GuestAction::WriteResolv("r".to_string()),
            GuestAction::SetResolvReadOnly,
        ]
    );
}

#[test]
fn only_clearing_the_attribute_is_best_effort() {
    assert!(!GuestAction::ClearResolvReadOnly.failure_aborts());
    assert!(GuestAction::SetResolvReadOnly.failure_aborts());
    assert!(GuestAction::Terminate.failure_aborts());
    assert!(GuestAction::WriteResolv(String::new()).failure_aborts());
    assert!(GuestAction::WriteWslConf(String::new()).failure_aborts());
}

#[test]
fn error_messages_name_the_failing_part() {
    let e = Error::Dns(DnsError::RouteInterfaceMismatch);
    assert!(e.message().contains("interface index"));
    let e = Error::Wsl(WslError::UnexpectedListOutput);
    assert!(e.message().contains("list"));
    let e = Error::WslConfError("unreadable".to_string());
    assert!(e.message().contains("unreadable"));
}

#[test]
fn pass_selects_only_supported_versions_with_dns_applied() {
    let config = Config {
        show_notifications: true,
        defaults: DistributionSetting::default(),
        distributions: vec![("skipped".to_string(), setting(false, false, false))],
    };
    let dists = vec![
        dist("alpha", "Running", 2),
        dist("legacy", "Running", 1),
        dist("skipped", "Running", 2),
        dist("beta", "Stopped", 2),
    ];
    let targets = update_dns(&config, &dists);
    let names: Vec<&str> = targets.iter().map(|p| p.0.name.as_str()).collect();
    assert_eq!(names, vec!["alpha", "beta"]);
    assert!(targets.iter().all(|p| p.1.apply_dns));
}

#[test]
fn end_to_end_pass_patches_only_the_included_distribution() {
    // Two guests: "A" under the default policy, "Infra" excluded outright.
    let config = Config {
        show_notifications: true,
        defaults: DistributionSetting::default(),
        distributions: vec![("Infra".to_string(), setting(false, false, false))],
    };
    let dists = vec![dist("A", "Running", 2), dist("Infra", "Running", 2)];
    let targets = update_dns(&config, &dists);
    assert_eq!(targets.len(), 1);
    assert_eq!(targets[0].0.name, "A");

    // "A" has no wsl.conf yet: the pass writes one, restarts the guest, and
    // replaces its resolver file.
    let plan = plan_distribution_update(
        &targets[0].1,
        targets[0].0.was_stopped(),
        None,
        "# resolv\nnameserver 1.1.1.1\n",
    )
    .unwrap();
    assert_eq!(
        plan,
        vec![
            GuestAction::WriteWslConf("[network]\ngenerateResolvConf=false\n".to_string()),
            GuestAction::Terminate,
            GuestAction::ClearResolvReadOnly,
            GuestAction::WriteResolv("# resolv\nnameserver 1.1.1.1\n".to_string()),
            GuestAction::SetResolvReadOnly,
        ]
    );

    // "Infra" gets no plan at all, even if asked directly.
    let infra_plan =
        plan_distribution_update(&setting(false, false, false), false, None, "r").unwrap();
    assert!(infra_plan.is_empty());
}
