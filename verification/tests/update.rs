use bang::update::{
    check_due, checksum_verdict, is_newer, newer_release, platform_asset, run, sha256_hex,
    tag_version, verify_checksum, Asset, Plan, Release, CHECK_INTERVAL_SECS,
};

#[test]
fn version_comparison_is_numeric() {
    assert!(is_newer("0.2.0", "0.1.9"));
    assert!(is_newer("0.10.0", "0.9.0"));
    assert!(is_newer("1.0.0", "0.99.99"));
    assert!(!is_newer("0.1.0", "0.1.0"));
    assert!(!is_newer("0.1.0", "0.2.0"));
}

#[test]
fn platform_asset_shape() {
    let asset = platform_asset("macos", "aarch64");
    assert!(asset.starts_with("bang-"));
    assert!(!asset.contains("macos"), "macOS must map to darwin");
}

#[test]
fn platform_asset_names() {
    assert_eq!(platform_asset("macos", "x86_64"), "bang-darwin-x86_64");
    assert_eq!(platform_asset("linux", "aarch64"), "bang-linux-aarch64");
}

#[test]
fn version_fields_edge_cases() {
    assert!(is_newer("0.1.0", "0.1"));
    assert!(!is_newer("0.1", "0.1.0"));
    assert!(is_newer("1.2.3-rc1", "1.2.2"));
    assert!(!is_newer("1.2.3-rc1", "1.2.3"));
    assert!(!is_newer("1.x", "1.0"));
    // a field that does not fit in u64 counts as 0
    assert!(!is_newer("99999999999999999999.0", "0.0"));
    assert!(is_newer("18446744073709551615.0", "18446744073709551614.9"));
    assert!(!is_newer("", ""));
}

#[test]
fn is_newer_is_a_strict_order_on_examples() {
    let vs = ["0.1.0", "0.1.9", "0.2", "0.10.0", "1.0.0", "1"];
    for a in vs {
        assert!(!is_newer(a, a));
        for b in vs {
            assert!(!(is_newer(a, b) && is_newer(b, a)));
            for c in vs {
                if is_newer(a, b) && is_newer(b, c) {
                    assert!(is_newer(a, c));
                }
            }
        }
    }
}

#[test]
fn tags_lose_leading_v() {
    assert_eq!(tag_version("v0.3.1"), "0.3.1");
    assert_eq!(tag_version("vv1"), "1");
    assert_eq!(tag_version("1.0"), "1.0");
    assert_eq!(newer_release("v0.3.0", "0.2.9").as_deref(), Some("0.3.0"));
    assert_eq!(newer_release("v0.2.9", "0.2.9"), None);
}

fn asset(name: &str) -> Asset {
    Asset { name: name.to_string(), browser_download_url: format!("https://dl/{name}") }
}

#[test]
fn update_plans() {
    let release = Release {
        tag_name: "v1.1.0".to_string(),
        assets: vec![asset("bang-linux-x86_64.sha256"), asset("bang-linux-x86_64"), asset("other")],
    };
    assert!(matches!(run(&release, "1.1.0", false, "bang-linux-x86_64"), Plan::UpToDate));
    match run(&release, "1.0.0", true, "bang-linux-x86_64") {
        Plan::Available { latest } => assert_eq!(latest, "1.1.0"),
        _ => panic!("expected available"),
    }
    match run(&release, "1.0.0", false, "bang-linux-x86_64") {
        Plan::Install { latest, asset, checksum } => {
            assert_eq!(latest, "1.1.0");
            assert_eq!(asset, 1);
            assert_eq!(checksum, Some(0));
        }
        _ => panic!("expected install"),
    }
    match run(&release, "1.0.0", false, "other") {
        Plan::Install { asset, checksum, .. } => {
            assert_eq!(asset, 2);
            assert_eq!(checksum, None);
        }
        _ => panic!("expected install"),
    }
    match run(&release, "1.0.0", false, "bang-darwin-aarch64") {
        Plan::NoAsset { latest } => assert_eq!(latest, "1.1.0"),
        _ => panic!("expected no asset"),
    }
}

#[test]
fn sha256_hex_known_vectors() {
    assert_eq!(
        sha256_hex(b"abc"),
        "ba7816bf8f01cfea414140de5dae2223b00361a396177a9cb410ff61f20015ad"
    );
    assert_eq!(
        sha256_hex(b""),
        "e3b0c44298fc1c149afbf4c8996fb92427ae41e4649b934ca495991b7852b855"
    );
}

#[test]
fn checksums_compare_first_word_ignoring_case() {
    let sum = "BA7816BF8F01CFEA414140DE5DAE2223B00361A396177A9CB410FF61F20015AD  bang-linux\n";
    assert!(verify_checksum(sum, b"abc").is_ok());
    match verify_checksum(sum, b"abd") {
        Err(m) => {
            assert_eq!(m.expected, "BA7816BF8F01CFEA414140DE5DAE2223B00361A396177A9CB410FF61F20015AD");
            assert_eq!(m.actual, sha256_hex(b"abd"));
        }
        Ok(()) => panic!("expected a mismatch"),
    }
    match checksum_verdict("", "00") {
        Err(m) => assert_eq!(m.expected, ""),
        Ok(()) => panic!("expected a mismatch"),
    }
    assert!(checksum_verdict("  aBc  ", "AbC").is_ok());
}

#[test]
fn update_checks_at_most_daily() {
    assert_eq!(CHECK_INTERVAL_SECS, 86400);
    assert!(check_due(None));
    assert!(!check_due(Some(0)));
    assert!(!check_due(Some(86399)));
    assert!(check_due(Some(86400)));
}
