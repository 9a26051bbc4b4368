use asp_ls::release::{
    binary_path, find_asset, plan_install, release_asset, release_target, version_dir, Arch, ArchiveKind, Os, REPO,
};

fn s(x: &str) -> String {
    x.to_string()
}

#[test]
fn prebuilt_targets_exist_for_three_platforms() {
    assert_eq!(release_target(Os::Windows, Arch::X8664), Ok(s("x86_64-pc-windows-msvc")));
    assert_eq!(release_target(Os::Linux, Arch::X8664), Ok(s("x86_64-unknown-linux-gnu")));
    assert_eq!(release_target(Os::Mac, Arch::Aarch64), Ok(s("aarch64-apple-darwin")));
    assert_eq!(release_target(Os::Mac, Arch::X8664), Err(s("no prebuilt asp-ls for this platform")));
    assert_eq!(release_target(Os::Linux, Arch::Aarch64), Err(s("no prebuilt asp-ls for this platform")));
    assert_eq!(release_target(Os::Windows, Arch::X86), Err(s("no prebuilt asp-ls for this platform")));
    assert_eq!(REPO, "WhiteKr/zed-classic-asp");
}

#[test]
fn assets_are_zipped_on_windows_and_tarred_elsewhere() {
    assert_eq!(
        release_asset(Os::Windows, "x86_64-pc-windows-msvc"),
        (s("asp-ls-x86_64-pc-windows-msvc.zip"), ArchiveKind::Zip)
    );
    assert_eq!(
        release_asset(Os::Linux, "x86_64-unknown-linux-gnu"),
        (s("asp-ls-x86_64-unknown-linux-gnu.tar.gz"), ArchiveKind::GzipTar)
    );
}

#[test]
fn version_directories_drop_leading_vs() {
    assert_eq!(version_dir("v1.2.3"), "asp-ls-1.2.3");
    assert_eq!(version_dir("1.2.3"), "asp-ls-1.2.3");
    assert_eq!(version_dir("vv0.1"), "asp-ls-0.1");
    assert_eq!(version_dir("v"), "asp-ls-");
    assert_eq!(version_dir("1.0v"), "asp-ls-1.0v");
}

#[test]
fn executables_stand_inside_the_version_directory() {
    assert_eq!(binary_path(Os::Windows, "asp-ls-1.0"), "asp-ls-1.0/asp-ls.exe");
    assert_eq!(binary_path(Os::Mac, "asp-ls-1.0"), "asp-ls-1.0/asp-ls");
}

#[test]
fn find_asset_takes_the_first_exact_name() {
    let names = vec![s("a.zip"), s("b.tar.gz"), s("a.zip")];
    assert_eq!(find_asset(&names, &s("a.zip")), Some(0));
    assert_eq!(find_asset(&names, &s("b.tar.gz")), Some(1));
    assert_eq!(find_asset(&names, &s("A.ZIP")), None);
}

#[test]
fn plan_install_names_asset_directory_and_binary() {
    let assets = vec![s("asp-ls-x86_64-pc-windows-msvc.zip"), s("asp-ls-x86_64-unknown-linux-gnu.tar.gz")];
    let plan = plan_install(Os::Linux, "x86_64-unknown-linux-gnu", "v0.4.0", &assets).ok().unwrap();
    assert_eq!(plan.asset, 1);
    assert_eq!(plan.version_dir, "asp-ls-0.4.0");
    assert_eq!(plan.binary_path, "asp-ls-0.4.0/asp-ls");
    assert_eq!(plan.archive, ArchiveKind::GzipTar);
    assert!(plan.make_executable);
    let win = plan_install(Os::Windows, "x86_64-pc-windows-msvc", "v0.4.0", &assets).ok().unwrap();
    assert_eq!(win.asset, 0);
    assert_eq!(win.binary_path, "asp-ls-0.4.0/asp-ls.exe");
    assert!(!win.make_executable);
}

#[test]
fn plan_install_reports_a_missing_asset() {
    let assets = vec![s("asp-ls-x86_64-pc-windows-msvc.zip")];
    match plan_install(Os::Mac, "aarch64-apple-darwin", "v0.4.0", &assets) {
        Err(e) => assert_eq!(e, "no asset named asp-ls-aarch64-apple-darwin.tar.gz in release v0.4.0"),
        Ok(_) => panic!("no mac asset was listed"),
    }
}
