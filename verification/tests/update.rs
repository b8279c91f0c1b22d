use std::io::Cursor;

use k2g::update::{
    check_is_due, check_is_due_at, pick_installer, safe_file_name, select_update, update_to_offer, verify_against,
    verify_signature, AvailableUpdate, Instant, Platform, ReleaseAsset, ReleaseFeed, UpdateError, PUBLIC_KEY,
};

fn utc(text: &str) -> Instant {
    let when = chrono::DateTime::parse_from_rfc3339(text).unwrap();
    Instant { secs: when.timestamp(), nanos: when.timestamp_subsec_nanos() }
}

fn asset(name: &str) -> ReleaseAsset {
    ReleaseAsset { name: name.to_string(), browser_download_url: format!("https://example.invalid/{name}") }
}

fn full_release() -> Vec<ReleaseAsset> {
    vec![
        asset("k2g-0.9.1.cdx.json"),
        asset("k2g-0.9.1-setup.exe"),
        asset("k2g-0.9.1-setup.exe.minisig"),
        asset("k2g-0.9.1.msi"),
        asset("k2g-0.9.1.msi.minisig"),
        asset("k2g-0.9.1-portable.zip"),
        asset("k2g-0.9.1.AppImage"),
        asset("k2g-0.9.1.AppImage.minisig"),
        asset("k2g-0.9.1.deb"),
        asset("k2g-0.9.1.deb.minisig"),
        asset("k2g-0.9.1.dmg"),
        asset("k2g-0.9.1.dmg.minisig"),
    ]
}

// --- when to check -------------------------------------------------------------

#[test]
fn an_opted_out_user_is_never_checked_for() {
    assert!(!check_is_due(false, None, None, utc("2026-08-11T12:00:00Z")));
    assert!(!check_is_due(false, Some("2020-01-01T00:00:00Z"), None, utc("2026-08-11T12:00:00Z")));
}

#[test]
fn the_check_runs_at_most_once_a_day() {
    let now = utc("2026-08-11T12:00:00Z");
    assert!(check_is_due(true, None, None, now), "a machine that has never checked should check");
    assert!(!check_is_due(true, Some("2026-08-11T02:00:00Z"), None, now), "ten hours ago is too recent");
    assert!(check_is_due(true, Some("2026-08-10T11:00:00Z"), None, now), "twenty-five hours ago is due");
}

#[test]
fn a_postponement_suppresses_the_check_until_it_lapses() {
    let now = utc("2026-08-11T12:00:00Z");
    assert!(!check_is_due(true, None, Some("2026-08-18T12:00:00Z"), now));
    assert!(check_is_due(true, None, Some("2026-08-10T12:00:00Z"), now), "a lapsed postponement stops suppressing");
}

#[test]
fn a_clock_that_moved_backwards_does_not_wedge_the_check_shut() {
    let now = utc("2026-08-11T12:00:00Z");
    assert!(check_is_due(true, Some("2027-01-01T00:00:00Z"), None, now));
}

#[test]
fn an_unreadable_timestamp_checks_rather_than_gives_up() {
    let now = utc("2026-08-11T12:00:00Z");
    assert!(check_is_due(true, Some("not a date"), None, now));
    assert!(check_is_due(true, Some(""), None, now));
}

#[test]
fn exactly_a_day_is_due_and_a_nanosecond_less_is_not() {
    let now = utc("2026-08-11T12:00:00Z");
    let day_ago = Instant { secs: now.secs - 86_400, nanos: 0 };
    let just_under = Instant { secs: now.secs - 86_400, nanos: 1 };
    assert!(check_is_due_at(true, Some(day_ago), None, now));
    assert!(!check_is_due_at(true, Some(just_under), None, now));
}

#[test]
fn a_time_zone_offset_in_the_stamp_is_honoured() {
    // 03:00 at +02:00 is 01:00 UTC: eleven hours before noon UTC, so not yet due.
    let now = utc("2026-08-11T12:00:00Z");
    assert!(!check_is_due(true, Some("2026-08-11T03:00:00+02:00"), None, now));
    // Midnight at -10:00 on the 10th is 10:00 UTC, twenty-six hours before: due.
    assert!(check_is_due(true, Some("2026-08-10T00:00:00-10:00"), None, now));
}

// --- which asset ----------------------------------------------------------------

#[test]
fn the_installer_is_picked_by_extension_and_never_the_signature() {
    let assets = full_release();
    let picked = pick_installer(&assets, Platform::Linux).expect("an installer should be found");
    assert!(!picked.name.ends_with(".minisig"), "a signature file must never be chosen as the installer");
    assert_eq!(picked.name, "k2g-0.9.1.AppImage");
}

#[test]
fn each_platform_takes_its_preferred_installer() {
    let assets = full_release();
    assert_eq!(pick_installer(&assets, Platform::Windows).unwrap().name, "k2g-0.9.1.msi");
    assert_eq!(pick_installer(&assets, Platform::MacOs).unwrap().name, "k2g-0.9.1.dmg");
    assert_eq!(pick_installer(&assets, Platform::Linux).unwrap().name, "k2g-0.9.1.AppImage");

    let no_msi: Vec<ReleaseAsset> = assets.iter().filter(|a| !a.name.contains(".msi")).cloned().collect();
    assert_eq!(pick_installer(&no_msi, Platform::Windows).unwrap().name, "k2g-0.9.1-setup.exe");
    let no_appimage: Vec<ReleaseAsset> = assets.iter().filter(|a| !a.name.contains("AppImage")).cloned().collect();
    assert_eq!(pick_installer(&no_appimage, Platform::Linux).unwrap().name, "k2g-0.9.1.deb");
}

#[test]
fn the_extension_matches_in_any_case() {
    let assets = vec![asset("K2G.APPIMAGE"), asset("k2g.appimage.minisig")];
    let picked = pick_installer(&assets, Platform::Linux).unwrap();
    assert_eq!(picked.name, "K2G.APPIMAGE");
    assert_eq!(picked.browser_download_url, "https://example.invalid/K2G.APPIMAGE");
}

#[test]
fn a_release_with_no_installer_for_this_platform_yields_nothing() {
    let assets = vec![ReleaseAsset {
        name: "k2g-0.9.1.cdx.json".to_string(),
        browser_download_url: "https://example.invalid/sbom".to_string(),
    }];
    assert!(pick_installer(&assets, Platform::Linux).is_none());
}

// --- which file name -------------------------------------------------------------

#[test]
fn a_traversing_asset_name_is_refused() {
    for hostile in [
        "../k2g.exe",
        "..\\..\\Startup\\evil.exe",
        "/etc/cron.d/evil",
        "C:\\Windows\\System32\\evil.exe",
        "sub/dir/k2g.exe",
        "",
        "   ",
        "..",
    ] {
        assert!(safe_file_name(hostile).is_none(), "{hostile:?} must be refused");
    }
    assert_eq!(safe_file_name("k2g-0.9.1.msi"), Some("k2g-0.9.1.msi"));
}

#[test]
fn a_safe_name_is_trimmed_and_nul_is_refused() {
    assert_eq!(safe_file_name("  k2g-0.9.1.msi \n"), Some("k2g-0.9.1.msi"));
    assert_eq!(safe_file_name(" . "), None);
    assert_eq!(safe_file_name("k2g\u{0}.msi"), None);
    assert_eq!(safe_file_name("...msi"), Some("...msi"));
}

// --- signatures -------------------------------------------------------------------

#[test]
fn verification_rejects_everything_it_cannot_prove() {
    assert!(verify_signature(b"payload", b"").is_err(), "empty signature");
    assert!(verify_signature(b"payload", b"not a minisign signature").is_err(), "garbage signature");
    assert!(verify_signature(b"payload", &[0xff, 0xfe, 0x00]).is_err(), "non-UTF-8 signature");
}

#[test]
fn the_placeholder_signing_key_installs_nothing() {
    if minisign_verify::PublicKey::decode(PUBLIC_KEY.trim()).is_err() {
        assert!(verify_signature(b"anything", b"anything").is_err(), "an unusable key must reject every artifact");
    }
}

fn signed_fixture(payload: &[u8]) -> (String, Vec<u8>) {
    let keypair = minisign::KeyPair::generate_unencrypted_keypair().unwrap();
    let public_key = keypair.pk.to_box().unwrap().to_string();
    let signature = minisign::sign(None, &keypair.sk, Cursor::new(payload), None, None)
        .unwrap()
        .into_string()
        .into_bytes();
    (public_key, signature)
}

#[test]
fn a_correctly_signed_installer_is_accepted() {
    let payload = b"pretend this is k2g-0.9.1.msi";
    let (public_key, signature) = signed_fixture(payload);
    assert!(
        verify_against(&public_key, payload, &signature).is_ok(),
        "a genuine signature over unmodified bytes must verify"
    );
}

#[test]
fn one_tampered_byte_is_enough_to_reject_an_installer() {
    let payload = b"pretend this is k2g-0.9.1.msi";
    let (public_key, signature) = signed_fixture(payload);

    let mut tampered = payload.to_vec();
    let last = tampered.len() - 1;
    tampered[last] ^= 0x01;
    assert!(verify_against(&public_key, &tampered, &signature).is_err(), "a modified installer must be rejected");

    let mut appended = payload.to_vec();
    appended.extend_from_slice(b"and now some malware");
    assert!(
        verify_against(&public_key, &appended, &signature).is_err(),
        "an installer with content appended must be rejected"
    );
}

#[test]
fn a_signature_from_another_key_is_rejected() {
    let payload = b"pretend this is k2g-0.9.1.msi";
    let (_ours, _) = signed_fixture(payload);
    let (theirs, their_signature) = signed_fixture(payload);
    let (ours_again, _) = signed_fixture(payload);

    assert!(
        verify_against(&ours_again, payload, &their_signature).is_err(),
        "a well-formed signature from an unrelated key must be rejected"
    );
    assert!(verify_against(&theirs, payload, &their_signature).is_ok());
}

#[test]
fn each_rejection_says_which_part_failed() {
    let payload = b"data";
    let (public_key, signature) = signed_fixture(payload);
    let message = |r: Result<(), UpdateError>| r.unwrap_err().message();

    let no_key = message(verify_against("not a key", payload, &signature));
    assert!(no_key.starts_with("The downloaded installer's signature is not valid (this build has no usable signing key: "), "{no_key}");
    let not_text = message(verify_against(&public_key, payload, &[0xff, 0xfe]));
    assert!(not_text.contains("(the signature file is not text: "), "{not_text}");
    let malformed = message(verify_against(&public_key, payload, b"garbage"));
    assert!(malformed.contains("(malformed signature: "), "{malformed}");
}

// --- which release ----------------------------------------------------------------

fn feed(assets: Vec<ReleaseAsset>) -> ReleaseFeed {
    ReleaseFeed {
        tag_name: "v0.9.1-edge-routing".to_string(),
        body: "Notes".to_string(),
        html_url: "https://example.invalid/release".to_string(),
        assets,
        draft: false,
        prerelease: false,
    }
}

#[test]
fn a_newer_signed_release_is_offered() {
    let update = select_update(&feed(full_release()), Some((0, 9, 1)), Platform::Linux).unwrap().unwrap();
    assert_eq!(update.version, "0.9.1");
    assert_eq!(update.tag, "v0.9.1-edge-routing");
    assert_eq!(update.notes, "Notes");
    assert_eq!(update.page_url, "https://example.invalid/release");
    assert_eq!(update.installer.name, "k2g-0.9.1.AppImage");
    assert_eq!(update.signature.name, "k2g-0.9.1.AppImage.minisig");
    assert_eq!(update.signature.browser_download_url, "https://example.invalid/k2g-0.9.1.AppImage.minisig");
}

#[test]
fn drafts_prereleases_and_older_releases_are_not_offered() {
    let mut draft = feed(full_release());
    draft.draft = true;
    assert!(matches!(select_update(&draft, Some((0, 9, 1)), Platform::Linux), Ok(None)));
    let mut pre = feed(full_release());
    pre.prerelease = true;
    assert!(matches!(select_update(&pre, Some((0, 9, 1)), Platform::Linux), Ok(None)));
    assert!(matches!(select_update(&feed(full_release()), None, Platform::Linux), Ok(None)));
}

#[test]
fn a_release_without_an_installer_or_signature_is_an_error() {
    match select_update(&feed(vec![asset("k2g.cdx.json")]), Some((1, 0, 0)), Platform::Linux) {
        Err(UpdateError::NoArtifact(tag)) => assert_eq!(tag, "v0.9.1-edge-routing"),
        other => panic!("expected NoArtifact, got {other:?}"),
    }
    match select_update(&feed(vec![asset("k2g.deb")]), Some((1, 0, 0)), Platform::Linux) {
        Err(e) => assert_eq!(
            e.message(),
            "Release v0.9.1-edge-routing has no signature file for its installer — k2g will not install an unverified download"
        ),
        other => panic!("expected NoSignature, got {other:?}"),
    }
}

#[test]
fn a_skipped_version_is_not_announced() {
    let update: AvailableUpdate =
        select_update(&feed(full_release()), Some((0, 9, 1)), Platform::Linux).unwrap().unwrap();
    assert!(update_to_offer(update.clone(), &Some("0.9.1".to_string())).is_none());
    assert!(update_to_offer(update.clone(), &Some("0.9.0".to_string())).is_some());
    assert!(update_to_offer(update, &None).is_some());
}

#[test]
fn error_messages_read_as_the_user_sees_them() {
    assert_eq!(UpdateError::Network("timeout".into()).message(), "Could not reach GitHub: timeout");
    assert_eq!(
        UpdateError::Protocol("HTTP 403".into()).message(),
        "GitHub answered with an unexpected response: HTTP 403"
    );
    assert_eq!(UpdateError::NoArtifact("v1".into()).message(), "Release v1 has no installer for this platform");
    assert_eq!(UpdateError::TooLarge(65536).message(), "The download exceeded 65536 bytes and was abandoned");
    assert_eq!(UpdateError::Launch("x: denied".into()).message(), "Could not start the installer: x: denied");
    let write = UpdateError::Write("/tmp/k2g".into(), std::io::Error::new(std::io::ErrorKind::Other, "disk full"));
    assert_eq!(write.message(), "Could not write '/tmp/k2g': disk full");
}

#[test]
fn a_leap_second_stamp_orders_as_chrono_orders_it() {
    // 23:59:60.5 comes before the next day's 00:00:00.2, and only 0.7 s lie between.
    let now = utc("2017-01-01T00:00:00.2Z");
    assert!(!check_is_due(true, Some("2016-12-31T23:59:60.5Z"), None, now));
    assert!(check_is_due(true, Some("2016-12-31T23:59:60.5Z"), None, utc("2017-01-02T00:00:00.5Z")));
}
