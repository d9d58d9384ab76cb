use engage::semver::{compatible, Version};

fn v(text: &str) -> Version {
    Version::parse(text).expect("hard-coded value should be valid")
}

#[test]
fn tests() {
    let v0_0_0 = v("0.0.0");
    let v0_0_1 = v("0.0.1");
    let v0_0_2 = v("0.0.2");
    let v0_1_0 = v("0.1.0");
    let v0_1_1 = v("0.1.1");
    let v0_2_0 = v("0.2.0");
    let v1_0_0 = v("1.0.0");
    let v1_0_0_build = v("1.0.0+build");
    let v1_0_0_alpha = v("1.0.0-alpha");
    let v1_0_0_beta = v("1.0.0-beta");
    let v1_0_1 = v("1.0.1");
    let v1_1_0 = v("1.1.0");
    let v1_1_1 = v("1.1.1");
    let v2_0_0 = v("2.0.0");

    assert!(compatible(&v0_0_0, &v0_0_0));
    assert!(compatible(&v0_1_0, &v0_1_0));
    assert!(compatible(&v0_1_0, &v0_1_1));
    assert!(compatible(&v1_0_0, &v1_0_0));
    assert!(compatible(&v1_0_0, &v1_0_0_build));
    assert!(compatible(&v1_0_0, &v1_0_1));
    assert!(compatible(&v1_0_0, &v1_1_0));
    assert!(compatible(&v1_0_0, &v1_1_1));
    assert!(compatible(&v1_0_0_alpha, &v1_0_0_alpha));
    assert!(compatible(&v1_0_0_build, &v1_0_0));
    assert!(compatible(&v1_0_0_build, &v1_0_0_build));

    assert!(!compatible(&v0_0_0, &v0_0_1));
    assert!(!compatible(&v0_0_1, &v0_0_2));
    assert!(!compatible(&v0_1_0, &v0_2_0));
    assert!(!compatible(&v0_1_1, &v0_1_0));
    assert!(!compatible(&v1_0_0, &v2_0_0));
    assert!(!compatible(&v1_0_0_alpha, &v1_0_0_beta));
    assert!(!compatible(&v1_0_0_beta, &v1_0_0_alpha));
    assert!(!compatible(&v1_0_1, &v1_0_0));
    assert!(!compatible(&v1_1_0, &v1_0_0));
    assert!(!compatible(&v1_1_1, &v1_0_0));
}

#[test]
fn parse_reads_all_parts() {
    let x = v("1.2.3-alpha.1+build.5");
    assert_eq!((x.major, x.minor, x.patch), (1, 2, 3));
    assert_eq!(x.pre, "alpha.1");
    assert_eq!(x.build, "build.5");
}

#[test]
fn parse_rejects_invalid_versions() {
    assert!(Version::parse("1.0").is_err());
    assert!(Version::parse("1.0.01").is_err());
    assert!(Version::parse("1.0.0-").is_err());
    assert!(Version::parse("").is_err());
}

#[test]
fn compatibility_rules_of_the_zero_major() {
    // 0.0.z with z != 0 only accepts itself.
    assert!(compatible(&v("0.0.3"), &v("0.0.3")));
    assert!(!compatible(&v("0.0.3"), &v("0.0.4")));
    // 0.x.y with x != 0 accepts larger patches of the same minor.
    assert!(compatible(&v("0.3.1"), &v("0.3.7")));
    assert!(!compatible(&v("0.3.1"), &v("0.4.1")));
    // A pre-release of the candidate is accepted by a plain requirement.
    assert!(compatible(&v("1.2.0"), &v("1.2.0-rc.1")));
    // A later minor release of the same major is accepted, whatever its patch.
    assert!(compatible(&v("1.2.5"), &v("1.3.0")));
    assert!(!compatible(&v("1.3.0"), &v("1.2.5")));
    assert!(!compatible(&v("1.2.5"), &v("1.2.4")));
}

#[test]
fn every_version_is_compatible_with_itself() {
    for text in ["0.0.0", "0.0.9", "0.4.2", "3.1.4", "1.0.0-rc.1", "2.0.0+meta"] {
        assert!(compatible(&v(text), &v(text)));
    }
}
