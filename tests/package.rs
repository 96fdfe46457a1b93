use pkgsync::package::{Arch, Package};

// Without epoch and signature

#[test]
fn package_from_string() {
    let package1: Package = Package::from_str("lnav-0.5.1-1-x86_64.pkg.tar.xz").unwrap();
    let package2 = Package::new("lnav", "0.5.1", 1, 0, Arch::x86_64, true, false);
    assert_eq!(package1, package2);
}

#[test]
fn package_format() {
    let filename = "lnav-0.5.1-1-x86_64.pkg.tar.xz";
    let package = Package::new("lnav", "0.5.1", 1, 0, Arch::x86_64, true, false);
    assert_eq!(filename, package.to_string().as_str());
}

#[test]
fn package_from_string_and_format() {
    let filename = "lnav-0.5.1-1-x86_64.pkg.tar.xz";
    let package: Package = Package::from_str("lnav-0.5.1-1-x86_64.pkg.tar.xz").unwrap();
    assert_eq!(filename, package.to_string().as_str());
}

// With epoch and no signature

#[test]
fn package_with_epoch_from_string() {
    let package1: Package = Package::from_str("docker-1:1.3.1-1-x86_64.pkg.tar.xz").unwrap();
    let package2 = Package::new("docker", "1.3.1", 1, 1, Arch::x86_64, true, false);
    assert_eq!(package1, package2);
}

#[test]
fn package_with_epoch_format() {
    let filename = "docker-1:1.3.1-1-x86_64.pkg.tar.xz";
    let package = Package::new("docker", "1.3.1", 1, 1, Arch::x86_64, true, false);
    assert_eq!(filename, package.to_string().as_str());
}

#[test]
fn package_with_epoch_from_string_and_format() {
    let filename = "docker-1:1.3.1-1-x86_64.pkg.tar.xz";
    let package: Package = Package::from_str("docker-1:1.3.1-1-x86_64.pkg.tar.xz").unwrap();
    assert_eq!(filename, package.to_string().as_str());
}

// With epoch and signature

#[test]
fn package_with_epoch_and_sign_from_string() {
    let package1: Package = Package::from_str("docker-1:1.3.1-1-x86_64.pkg.tar.xz.sig").unwrap();
    let package2 = Package::new("docker", "1.3.1", 1, 1, Arch::x86_64, false, true);
    assert_eq!(package1, package2);
}

#[test]
fn package_with_epoch_and_sign_format() {
    let filename = "docker-1:1.3.1-1-x86_64.pkg.tar.xz.sig";
    let package = Package::new("docker", "1.3.1", 1, 1, Arch::x86_64, false, true);
    assert_eq!(filename, package.to_string().as_str());
}

#[test]
fn package_with_epoch_and_sign_from_string_and_format() {
    let filename = "docker-1:1.3.1-1-x86_64.pkg.tar.xz.sig";
    let package: Package = Package::from_str("docker-1:1.3.1-1-x86_64.pkg.tar.xz.sig").unwrap();
    assert_eq!(filename, package.to_string().as_str());
}

// With epoch, signature and dash in the name

#[test]
fn package_with_epoch_dash_and_sign_from_string() {
    let package1: Package =
        Package::from_str("docker-test-foo-1:1.3.1-1-x86_64.pkg.tar.xz.sig").unwrap();
    let package2 = Package::new("docker-test-foo", "1.3.1", 1, 1, Arch::x86_64, false, true);
    assert_eq!(package1, package2);
}

#[test]
fn package_with_epoch_dash_and_sign_format() {
    let filename = "docker-test-foo-1:1.3.1-1-x86_64.pkg.tar.xz.sig";
    let package = Package::new("docker-test-foo", "1.3.1", 1, 1, Arch::x86_64, false, true);
    assert_eq!(filename, package.to_string().as_str());
}

#[test]
fn package_with_epoch_dash_and_sign_from_string_and_format() {
    let filename = "docker-test-foo-1:1.3.1-1-x86_64.pkg.tar.xz.sig";
    let package: Package =
        Package::from_str("docker-test-foo-1:1.3.1-1-x86_64.pkg.tar.xz.sig").unwrap();
    assert_eq!(filename, package.to_string().as_str());
}

// Error paths

#[test]
fn package_missing_suffix() {
    assert!(Package::from_str("docker-1:1.3.1-1-x86_64").is_none());
}

#[test]
fn package_missing_version() {
    assert!(Package::from_str("docker-1-x86_64.pkg.tar.xz").is_none());
}

#[test]
fn package_invalid_pkgrel() {
    assert!(Package::from_str("docker-1:1.3.1-0-x86_64.pkg.tar.xz.sig").is_none());
}

// Further cases

#[test]
fn flags_of_parsed_names() {
    let binary = Package::from_str("lnav-0.5.1-1-x86_64.pkg.tar.xz").unwrap();
    assert!(binary.is_binary());
    assert!(!binary.is_signed());
    let signature = Package::from_str("lnav-0.5.1-1-x86_64.pkg.tar.xz.sig").unwrap();
    assert!(!signature.is_binary());
    assert!(signature.is_signed());
}

#[test]
fn dashed_name_fields() {
    let p = Package::from_str("docker-test-foo-1:1.3.1-1-x86_64.pkg.tar.xz.sig").unwrap();
    let expected = Package::new("docker-test-foo", "1.3.1", 1, 1, Arch::x86_64, false, true);
    assert_eq!(p, expected);
    assert!(p.is_signed());
    assert!(!p.is_binary());
}

#[test]
fn every_architecture_token() {
    let i686 = Package::from_str("a-1-2-i686.pkg.tar.xz").unwrap();
    assert_eq!(i686, Package::new("a", "1", 2, 0, Arch::i686, true, false));
    let any = Package::from_str("a-1-2-any.pkg.tar.xz").unwrap();
    assert_eq!(any, Package::new("a", "1", 2, 0, Arch::any, true, false));
    let x = Package::from_str("a-1-2-x86_64.pkg.tar.xz").unwrap();
    assert_eq!(x, Package::new("a", "1", 2, 0, Arch::x86_64, true, false));
}

#[test]
fn unknown_architecture_rejected() {
    assert!(Package::from_str("a-1-2-arm.pkg.tar.xz").is_none());
    assert!(Package::from_str("a-1-2-X86_64.pkg.tar.xz").is_none());
    assert!(Package::from_str("a-1-2-i686x.pkg.tar.xz").is_none());
    assert!(Package::from_str("a-1-2-.pkg.tar.xz").is_none());
}

#[test]
fn zero_release_rejected() {
    assert!(Package::from_str("lnav-0.5.1-0-x86_64.pkg.tar.xz").is_none());
    assert!(Package::from_str("lnav-0.5.1-00-x86_64.pkg.tar.xz").is_none());
}

#[test]
fn malformed_release_rejected() {
    assert!(Package::from_str("lnav-0.5.1-x-x86_64.pkg.tar.xz").is_none());
    assert!(Package::from_str("lnav-0.5.1--x86_64.pkg.tar.xz").is_none());
    assert!(Package::from_str("lnav-0.5.1-18446744073709551616-x86_64.pkg.tar.xz").is_none());
}

#[test]
fn largest_release_accepted() {
    let p = Package::from_str("lnav-0.5.1-18446744073709551615-x86_64.pkg.tar.xz").unwrap();
    assert_eq!(p, Package::new("lnav", "0.5.1", u64::MAX, 0, Arch::x86_64, true, false));
    assert_eq!(p.to_string(), "lnav-0.5.1-18446744073709551615-x86_64.pkg.tar.xz");
}

#[test]
fn suffix_variants_rejected() {
    assert!(Package::from_str("lnav-0.5.1-1-x86_64.pkg.tar.gz").is_none());
    assert!(Package::from_str("lnav-0.5.1-1-x86_64.pkg.tar.xz.asc").is_none());
    assert!(Package::from_str("lnav-0.5.1-1-x86_64.sig").is_none());
    assert!(Package::from_str("").is_none());
    assert!(Package::from_str(".pkg.tar.xz").is_none());
}

#[test]
fn malformed_epoch_and_version_rejected() {
    assert!(Package::from_str("docker-x:1.3.1-1-x86_64.pkg.tar.xz").is_none());
    assert!(Package::from_str("docker-:1.3.1-1-x86_64.pkg.tar.xz").is_none());
    assert!(Package::from_str("docker-1:-1-x86_64.pkg.tar.xz").is_none());
    assert!(Package::from_str("docker--1-x86_64.pkg.tar.xz").is_none());
}

#[test]
fn empty_name_rejected() {
    assert!(Package::from_str("-1.0-1-x86_64.pkg.tar.xz").is_none());
}

#[test]
fn explicit_zero_epoch_accepted() {
    let p = Package::from_str("docker-0:1.3.1-1-x86_64.pkg.tar.xz").unwrap();
    assert_eq!(p, Package::new("docker", "1.3.1", 1, 0, Arch::x86_64, true, false));
    assert_eq!(p.to_string(), "docker-1.3.1-1-x86_64.pkg.tar.xz");
}

#[test]
fn version_after_first_colon() {
    let p = Package::from_str("tool-2:1:0-3-any.pkg.tar.xz").unwrap();
    assert_eq!(p, Package::new("tool", "1:0", 3, 2, Arch::any, true, false));
}

#[test]
fn round_trip_of_constructed_references() {
    let cases = vec![
        Package::new("lnav", "0.5.1", 1, 0, Arch::x86_64, true, false),
        Package::new("docker-test-foo", "1.3.1", 12, 7, Arch::i686, false, true),
        Package::new("a", "b", 1, 1234567890, Arch::any, false, true),
        Package::new("héllo-wörld", "1.0rc1", 3, 0, Arch::any, true, false),
        Package::new("x", "1:2", 10, 3, Arch::any, true, false),
    ];
    for p in cases {
        let again = Package::from_str(p.to_string().as_str()).unwrap();
        assert_eq!(again, p);
    }
}

#[test]
fn multi_digit_numbers_formatted() {
    let p = Package::new("n", "v", 120, 305, Arch::i686, true, false);
    assert_eq!(p.to_string(), "n-305:v-120-i686.pkg.tar.xz");
}

#[test]
fn setters_change_flags() {
    let mut p = Package::new("n", "v", 1, 0, Arch::i686, false, false);
    p.set_binary(true);
    assert!(p.is_binary());
    assert!(!p.is_signed());
    p.set_signed(true);
    assert!(p.is_signed());
    p.set_binary(false);
    assert!(!p.is_binary());
    assert_eq!(p.to_string(), "n-v-1-i686.pkg.tar.xz.sig");
}
