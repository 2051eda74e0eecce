use wsl_dns_agent::config::{default_distributions, Config, DistributionSetting};

#[test]
fn named_setting_wins_over_the_default() {
    let config = Config {
        show_notifications: false,
        defaults: DistributionSetting { apply_dns: true, shutdown: false, patch_wsl_conf: true },
        distributions: vec![(
            "special".to_string(),
            DistributionSetting { apply_dns: false, shutdown: true, patch_wsl_conf: false },
        )],
    };
    let special = config.get_distribution_setting("special");
    assert!(!special.apply_dns);
    assert!(special.shutdown);
    assert!(!special.patch_wsl_conf);

    let other = config.get_distribution_setting("other");
    assert!(other.apply_dns);
    assert!(!other.shutdown);
    assert!(other.patch_wsl_conf);
}

#[test]
fn lookup_matches_names_exactly() {
    let config = Config {
        show_notifications: true,
        defaults: DistributionSetting::default(),
        distributions: default_distributions(),
    };
    // A prefix of an excluded name is not excluded.
    assert!(config.get_distribution_setting("docker").apply_dns);
    assert!(!config.get_distribution_setting("docker-desktop").apply_dns);
}

#[test]
fn default_configuration_excludes_infrastructure_distributions() {
    let config = Config::default();
    assert!(config.show_notifications);
    assert!(config.defaults.apply_dns);
    assert!(!config.defaults.shutdown);
    assert!(config.defaults.patch_wsl_conf);
    for name in ["docker-desktop", "docker-desktop-data"] {
        let s = config.get_distribution_setting(name);
        assert!(!s.apply_dns);
        assert!(!s.shutdown);
        assert!(!s.patch_wsl_conf);
    }
    assert!(config.get_distribution_setting("Ubuntu").apply_dns);
}

#[test]
fn default_setting_applies_dns_and_patches_conf() {
    let s = DistributionSetting::default();
    assert!(s.apply_dns);
    assert!(!s.shutdown);
    assert!(s.patch_wsl_conf);
}
