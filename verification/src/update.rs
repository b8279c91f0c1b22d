//! The update channel's decisions: when a release check is due, which release asset
//! is this platform's installer, whether an asset name is safe to write to disk, and
//! whether a download carries a valid minisign signature from the compiled-in key.
//!
//! Every artifact is verified before it may be executed; verification fails closed on
//! every error path.

use vstd::prelude::*;
use vstd::utf8::{decode_utf8, valid_utf8};

use crate::text::{
    decimal, ends_with, lower_text, push_decimal, text_contains_char, text_ends_with,
    text_ends_with_ignoring_ascii_case, text_equal, trim, trim_spec,
};

verus! {

/// Once a day.
pub const CHECK_INTERVAL_HOURS: i64 = 24;

/// How long "remind me later" silences the banner for, in days.
pub const POSTPONE_DAYS: i64 = 7;

/// Refuse absurd downloads outright: comfortably above a real installer.
pub const MAX_DOWNLOAD_BYTES: u64 = 419_430_400;

/// The largest a detached signature file may be.
pub const MAX_SIGNATURE_BYTES: u64 = 65_536;

/// The minisign public key every release artifact is verified against. This build
/// carries no usable key, so verification rejects every artifact.
pub const PUBLIC_KEY: &'static str = "untrusted comment: no release signing key is configured for this build\n";

/// `std::io::Error`, carried unopened inside [`UpdateError::Write`].
#[verifier::external_type_specification]
#[verifier::external_body]
pub struct ExIoError(std::io::Error);

/// Why an update could not be found, fetched, verified or started.
#[derive(Debug)]
pub enum UpdateError {
    Network(String),
    Protocol(String),
    NoArtifact(String),
    NoSignature(String),
    BadSignature(String),
    TooLarge(u64),
    Write(String, std::io::Error),
    Launch(String),
}

/// The text of an I/O error (its `Display`). The text depends on the error kind and
/// on the operating system's message for it, so nothing is claimed of it.
#[verifier::external_body]
fn io_error_text(e: &std::io::Error) -> String {
    format!("{e}")
}

impl UpdateError {
    /// The message shown to the operator.
    pub fn message(&self) -> (s: String)
        ensures
            match self {
                UpdateError::Network(m) => s@ == "Could not reach GitHub: "@ + m@,
                UpdateError::Protocol(m) => s@ == "GitHub answered with an unexpected response: "@ + m@,
                UpdateError::NoArtifact(t) => s@ == "Release "@ + t@ + " has no installer for this platform"@,
                UpdateError::NoSignature(t) => s@ == "Release "@ + t@
                    + " has no signature file for its installer — k2g will not install an unverified download"@,
                UpdateError::BadSignature(m) => s@ == "The downloaded installer's signature is not valid ("@ + m@
                    + "). The download has been deleted. Update manually from the releases page if this persists."@,
                UpdateError::TooLarge(n) => s@ == "The download exceeded "@ + decimal(*n as nat)
                    + " bytes and was abandoned"@,
                UpdateError::Write(p, _) => s@.len() >= ("Could not write '"@ + p@ + "': "@).len()
                    && s@.subrange(0, ("Could not write '"@ + p@ + "': "@).len() as int) == "Could not write '"@ + p@
                    + "': "@,
                UpdateError::Launch(m) => s@ == "Could not start the installer: "@ + m@,
            },
    {
        let mut s = String::new();
        match self {
            UpdateError::Network(m) => {
                s.append("Could not reach GitHub: ");
                s.append(m.as_str());
            },
            UpdateError::Protocol(m) => {
                s.append("GitHub answered with an unexpected response: ");
                s.append(m.as_str());
            },
            UpdateError::NoArtifact(t) => {
                s.append("Release ");
                s.append(t.as_str());
                s.append(" has no installer for this platform");
            },
            UpdateError::NoSignature(t) => {
                s.append("Release ");
                s.append(t.as_str());
                s.append(" has no signature file for its installer — k2g will not install an unverified download");
            },
            UpdateError::BadSignature(m) => {
                s.append("The downloaded installer's signature is not valid (");
                s.append(m.as_str());
                s.append("). The download has been deleted. Update manually from the releases page if this persists.");
            },
            UpdateError::TooLarge(n) => {
                s.append("The download exceeded ");
                push_decimal(&mut s, *n);
                s.append(" bytes and was abandoned");
            },
            UpdateError::Write(p, e) => {
                s.append("Could not write '");
                s.append(p.as_str());
                s.append("': ");
                let ghost head = s@;
                let detail = io_error_text(e);
                s.append(detail.as_str());
                assert(s@.subrange(0, head.len() as int) =~= head);
            },
            UpdateError::Launch(m) => {
                s.append("Could not start the installer: ");
                s.append(m.as_str());
            },
        }
        s
    }
}

// ---------------------------------------------------------------------------
// When to check
// ---------------------------------------------------------------------------

/// A point in time: seconds since the Unix epoch and the nanoseconds past that second.
#[derive(Clone, Copy, Debug, PartialEq, Eq, Structural)]
pub struct Instant {
    pub secs: i64,
    pub nanos: u32,
}

/// What `chrono::DateTime::parse_from_rfc3339` makes of a text, as epoch seconds and
/// nanoseconds; `None` when it does not parse.
pub uninterp spec fn rfc3339_instant(text: Seq<char>) -> Option<(i64, u32)>;

/// An optional instant as a pair.
pub open spec fn instant_pair(t: Option<Instant>) -> Option<(i64, u32)> {
    match t {
        Some(i) => Some((i.secs, i.nanos)),
        None => None,
    }
}

/// Parses an RFC 3339 time stamp (`chrono::DateTime::parse_from_rfc3339`) into the
/// instant it names. The contract names the parse's result and claims nothing else of
/// it.
#[verifier::external_body]
fn parse_stamp(text: &str) -> (r: Option<Instant>)
    ensures
        instant_pair(r) == rfc3339_instant(text@),
{
    match chrono::DateTime::parse_from_rfc3339(text) {
        Ok(when) => Some(Instant { secs: when.timestamp(), nanos: when.timestamp_subsec_nanos() }),
        Err(_) => None,
    }
}

/// Whether `a` comes before `b`, as chrono orders date-times: by second, then by the
/// nanoseconds past it (a leap second's nanoseconds run past one billion).
pub open spec fn instant_before(a: Instant, b: Instant) -> bool {
    a.secs < b.secs || (a.secs == b.secs && a.nanos < b.nanos)
}

/// The second of the day an instant falls in.
pub open spec fn day_second(t: Instant) -> int {
    (t.secs as int) % 86400
}

/// The time from `b` to `a` in nanoseconds, as chrono's `DateTime` subtraction counts
/// it: a leap second still to be counted between the two is added.
pub open spec fn nanos_since(a: Instant, b: Instant) -> int {
    let adj: int = if day_second(a) > day_second(b) && b.nanos >= 1_000_000_000 {
        1
    } else if day_second(a) < day_second(b) && a.nanos >= 1_000_000_000 {
        -1
    } else {
        0
    };
    (a.secs - b.secs + adj) * 1_000_000_000 + a.nanos - b.nanos
}

/// Whether a check is due at `now`, given the parsed stamps: enabled, not postponed,
/// and not run in the last day — or the last stamp is in the future (the clock moved
/// backwards), or there is none.
pub open spec fn due_spec(enabled: bool, last: Option<Instant>, postponed: Option<Instant>, now: Instant) -> bool {
    if !enabled {
        false
    } else if postponed matches Some(until) && instant_before(now, until) {
        false
    } else {
        match last {
            None => true,
            Some(l) => instant_before(now, l) || nanos_since(now, l) >= CHECK_INTERVAL_HOURS * 3600 * 1_000_000_000,
        }
    }
}

fn before(a: Instant, b: Instant) -> (r: bool)
    ensures
        r == instant_before(a, b),
{
    a.secs < b.secs || (a.secs == b.secs && a.nanos < b.nanos)
}

fn day_second_of(t: Instant) -> (r: i128)
    ensures
        r == day_second(t),
{
    let s = t.secs as i128;
    if s >= 0 {
        s % 86400
    } else {
        let q = (-s) % 86400;
        if q == 0 {
            0
        } else {
            86400 - q
        }
    }
}

fn nanos_since_exec(a: Instant, b: Instant) -> (r: i128)
    ensures
        r == nanos_since(a, b),
{
    let da = day_second_of(a);
    let db = day_second_of(b);
    let adj: i128 = if da > db && b.nanos >= 1_000_000_000 {
        1
    } else if da < db && a.nanos >= 1_000_000_000 {
        -1
    } else {
        0
    };
    ((a.secs as i128) - (b.secs as i128) + adj) * 1_000_000_000 + (a.nanos as i128) - (b.nanos as i128)
}

/// Whether a check is due, from already-parsed stamps.
pub fn check_is_due_at(enabled: bool, last: Option<Instant>, postponed: Option<Instant>, now: Instant) -> (r: bool)
    ensures
        r == due_spec(enabled, last, postponed, now),
        postponed matches Some(until) && (now.secs < until.secs || (now.secs == until.secs && now.nanos
            < until.nanos)) ==> !r,
{
    if !enabled {
        return false;
    }
    // A live postponement suppresses the check itself, not merely the banner.
    if let Some(until) = postponed {
        if before(now, until) {
            return false;
        }
    }
    match last {
        // An absent or unparsable stamp checks now and rewrites it.
        None => true,
        // A stamp in the future means the clock moved backwards: check now.
        Some(l) => before(now, l) || nanos_since_exec(now, l) >= 86_400_000_000_000i128,
    }
}

/// The parse of an optional stamp text.
pub open spec fn parsed(text: Option<Seq<char>>) -> Option<(i64, u32)> {
    match text {
        Some(t) => rfc3339_instant(t),
        None => None,
    }
}

/// An optional text by its characters.
pub open spec fn opt_text(o: Option<&str>) -> Option<Seq<char>> {
    match o {
        Some(s) => Some(s@),
        None => None,
    }
}

/// Whether a check is due: enabled, not postponed, and not run in the last day.
/// An unreadable stamp counts as absent.
pub fn check_is_due(enabled: bool, last_check: Option<&str>, postponed_until: Option<&str>, now: Instant) -> (r: bool)
    ensures
        exists|last: Option<Instant>, postponed: Option<Instant>|
            instant_pair(last) == parsed(opt_text(last_check)) && instant_pair(postponed) == parsed(
                opt_text(postponed_until),
            ) && r == due_spec(enabled, last, postponed, now),
        !enabled ==> !r,
        postponed_until matches Some(t) && rfc3339_instant(t@) matches Some((s, n)) && (now.secs < s || (now.secs
            == s && now.nanos < n)) ==> !r,
{
    let last = match last_check {
        Some(text) => parse_stamp(text),
        None => None,
    };
    let postponed = match postponed_until {
        Some(text) => parse_stamp(text),
        None => None,
    };
    check_is_due_at(enabled, last, postponed, now)
}

/// A postponement that has not lapsed suppresses the check, whatever the last-check
/// stamp says: with `now` before `until`, no check is due.
pub proof fn lemma_live_postponement_suppresses_check(
    enabled: bool,
    last: Option<Instant>,
    until: Instant,
    now: Instant,
)
    requires
        now.secs < until.secs || (now.secs == until.secs && now.nanos < until.nanos),
    ensures
        !due_spec(enabled, last, Some(until), now),
{
}

/// A postponement that has lapsed plays no part: from `until` on, the check is due
/// exactly when it would be with no postponement at all.
pub proof fn lemma_lapsed_postponement_is_ignored(
    enabled: bool,
    last: Option<Instant>,
    until: Instant,
    now: Instant,
)
    requires
        until.secs < now.secs || (until.secs == now.secs && until.nanos <= now.nanos),
    ensures
        due_spec(enabled, last, Some(until), now) == due_spec(enabled, last, None, now),
{
}

/// With no postponement in force, an enabled check with no last-check stamp is due,
/// and one whose stamp lies in the past is due exactly when a full day has gone by.
pub proof fn lemma_due_once_a_day(enabled: bool, last: Option<Instant>, now: Instant)
    requires
        enabled,
    ensures
        last is None ==> due_spec(enabled, last, None, now),
        match last {
            Some(l) => (l.secs < now.secs || (l.secs == now.secs && l.nanos <= now.nanos)) ==> (due_spec(
                enabled,
                last,
                None,
                now,
            ) <==> nanos_since(now, l) >= 86_400_000_000_000),
            None => true,
        },
{
}

// ---------------------------------------------------------------------------
// Which asset
// ---------------------------------------------------------------------------

/// One downloadable file of a release.
#[derive(Clone, Debug, PartialEq, Eq)]
pub struct ReleaseAsset {
    pub name: String,
    pub browser_download_url: String,
}

/// The platform a build targets.
#[derive(Clone, Copy, Debug, PartialEq, Eq, Structural)]
pub enum Platform {
    Windows,
    MacOs,
    /// Any other platform: Linux and the like.
    Linux,
}

/// The installer extensions a platform accepts, in order of preference. On Windows
/// the MSI comes first: it upgrades an existing install in place.
pub open spec fn installer_extensions(platform: Platform) -> Seq<Seq<char>> {
    match platform {
        Platform::Windows => seq![".msi"@, ".exe"@],
        Platform::MacOs => seq![".dmg"@],
        Platform::Linux => seq![".AppImage"@, ".deb"@],
    }
}

/// Whether an asset is an installer with extension `ext`: not a signature file, and
/// ending in `ext` ignoring ASCII case.
pub open spec fn is_installer_with(name: Seq<char>, ext: Seq<char>) -> bool {
    !ends_with(name, ".minisig"@) && ends_with(lower_text(name), lower_text(ext))
}

/// The first asset that is an installer with extension `ext`.
pub open spec fn first_installer_with(assets: Seq<ReleaseAsset>, ext: Seq<char>) -> Option<int>
    decreases assets.len(),
{
    if assets.len() == 0 {
        None
    } else if is_installer_with(assets[0].name@, ext) {
        Some(0)
    } else {
        match first_installer_with(assets.drop_first(), ext) {
            Some(i) => Some(i + 1),
            None => None,
        }
    }
}

/// The installer for a platform: by preference of extension, the first asset with it.
pub open spec fn pick_installer_spec(assets: Seq<ReleaseAsset>, exts: Seq<Seq<char>>) -> Option<int>
    decreases exts.len(),
{
    if exts.len() == 0 {
        None
    } else {
        match first_installer_with(assets, exts[0]) {
            Some(i) => Some(i),
            None => pick_installer_spec(assets, exts.drop_first()),
        }
    }
}

proof fn lemma_first_installer_with(assets: Seq<ReleaseAsset>, ext: Seq<char>)
    ensures
        first_installer_with(assets, ext) matches Some(i) ==> 0 <= i < assets.len() && is_installer_with(
            assets[i].name@,
            ext,
        ) && forall|j: int| 0 <= j < i ==> !is_installer_with(assets[j].name@, ext),
        first_installer_with(assets, ext) is None ==> forall|j: int|
            0 <= j < assets.len() ==> !is_installer_with(assets[j].name@, ext),
    decreases assets.len(),
{
    if assets.len() > 0 {
        lemma_first_installer_with(assets.drop_first(), ext);
        assert forall|j: int| 1 <= j < assets.len() implies assets[j] == assets.drop_first()[j - 1] by {}
    }
}

proof fn lemma_first_installer_first(assets: Seq<ReleaseAsset>, ext: Seq<char>, i: int)
    requires
        0 <= i < assets.len(),
        is_installer_with(assets[i].name@, ext),
        forall|j: int| 0 <= j < i ==> !is_installer_with(assets[j].name@, ext),
    ensures
        first_installer_with(assets, ext) == Some(i),
    decreases i,
{
    if i > 0 {
        assert(assets.drop_first()[i - 1] == assets[i]);
        assert forall|j: int| 0 <= j < i - 1 implies !is_installer_with(assets.drop_first()[j].name@, ext) by {
            assert(assets.drop_first()[j] == assets[j + 1]);
        }
        lemma_first_installer_first(assets.drop_first(), ext, i - 1);
    }
}

proof fn lemma_pick_installer(assets: Seq<ReleaseAsset>, exts: Seq<Seq<char>>)
    ensures
        pick_installer_spec(assets, exts) matches Some(i) ==> 0 <= i < assets.len() && !ends_with(
            assets[i].name@,
            ".minisig"@,
        ) && exists|k: int| 0 <= k < exts.len() && is_installer_with(assets[i].name@, #[trigger] exts[k]),
    decreases exts.len(),
{
    if exts.len() > 0 {
        lemma_first_installer_with(assets, exts[0]);
        lemma_pick_installer(assets, exts.drop_first());
        if let Some(i) = pick_installer_spec(assets, exts) {
            if first_installer_with(assets, exts[0]) is None {
                let k = choose|k: int|
                    0 <= k < exts.drop_first().len() && is_installer_with(assets[i].name@, #[trigger] exts.drop_first()[k]);
                assert(exts[k + 1] == exts.drop_first()[k]);
            }
        }
    }
}

/// A signature file is never chosen as the installer: whatever is picked does not end
/// in `.minisig` and carries one of the platform's installer extensions.
pub proof fn lemma_installer_is_never_a_signature(assets: Seq<ReleaseAsset>, platform: Platform)
    ensures
        pick_installer_spec(assets, installer_extensions(platform)) matches Some(i) ==> 0 <= i < assets.len()
            && !ends_with(assets[i].name@, ".minisig"@) && exists|k: int|
            0 <= k < installer_extensions(platform).len() && ends_with(
                lower_text(assets[i].name@),
                lower_text(#[trigger] installer_extensions(platform)[k]),
            ),
{
    lemma_pick_installer(assets, installer_extensions(platform));
}

fn first_installer_index(assets: &Vec<ReleaseAsset>, ext: &str) -> (r: Option<usize>)
    ensures
        r is None <==> first_installer_with(assets@, ext@) is None,
        r matches Some(i) ==> first_installer_with(assets@, ext@) == Some(i as int),
{
    proof {
        lemma_first_installer_with(assets@, ext@);
    }
    let mut i: usize = 0;
    while i < assets.len()
        invariant
            i <= assets@.len(),
            forall|j: int| 0 <= j < i ==> !is_installer_with(assets@[j].name@, ext@),
        decreases assets@.len() - i,
    {
        let name = assets[i].name.as_str();
        if !text_ends_with(name, ".minisig") && text_ends_with_ignoring_ascii_case(name, ext) {
            proof {
                lemma_first_installer_first(assets@, ext@, i as int);
            }
            return Some(i);
        }
        i += 1;
    }
    None
}

/// The installer asset for `platform`, matched on extension rather than on a name
/// template; `.minisig` files are excluded explicitly.
pub fn pick_installer(assets: &Vec<ReleaseAsset>, platform: Platform) -> (r: Option<ReleaseAsset>)
    ensures
        match pick_installer_spec(assets@, installer_extensions(platform)) {
            Some(i) => r matches Some(a) && a.name@ == assets@[i].name@ && a.browser_download_url@
                == assets@[i].browser_download_url@,
            None => r is None,
        },
{
    let exts: Vec<&str> = match platform {
        Platform::Windows => vec![".msi", ".exe"],
        Platform::MacOs => vec![".dmg"],
        Platform::Linux => vec![".AppImage", ".deb"],
    };
    let ghost all = installer_extensions(platform);
    proof {
        assert(exts@.map_values(|e: &str| e@) =~= all);
        assert(all.skip(0) =~= all);
        lemma_first_installer_with(assets@, ".msi"@);
    }
    let mut k: usize = 0;
    while k < exts.len()
        invariant
            k <= exts@.len(),
            all == installer_extensions(platform),
            exts@.map_values(|e: &str| e@) == all,
            pick_installer_spec(assets@, all) == pick_installer_spec(assets@, all.skip(k as int)),
        decreases exts@.len() - k,
    {
        proof {
            assert(all.skip(k as int).drop_first() =~= all.skip(k + 1));
            assert(all.skip(k as int)[0] == exts@[k as int]@);
            lemma_first_installer_with(assets@, exts@[k as int]@);
        }
        match first_installer_index(assets, exts[k]) {
            Some(i) => {
                assert(pick_installer_spec(assets@, all.skip(k as int)) == Some(i as int));
                let a = &assets[i];
                return Some(ReleaseAsset { name: a.name.clone(), browser_download_url: a.browser_download_url.clone() });
            },
            None => {},
        }
        k += 1;
    }
    None
}

// ---------------------------------------------------------------------------
// Which file name
// ---------------------------------------------------------------------------

/// A plain file name, safe to join onto a directory: the trimmed name when it is not
/// empty, `.` or `..`, and holds no separator, NUL or drive colon.
pub open spec fn safe_file_name_spec(name: Seq<char>) -> Option<Seq<char>> {
    let t = trim_spec(name);
    if t.len() == 0 || t == "."@ || t == ".."@ {
        None
    } else if t.contains('/') || t.contains('\\') || t.contains('\0') || t.contains(':') {
        None
    } else {
        Some(t)
    }
}

/// Whether `name` is a plain file name, safe to join onto a directory; the name the
/// download is written under.
pub fn safe_file_name(name: &str) -> (r: Option<&str>)
    ensures
        match r {
            Some(s) => safe_file_name_spec(name@) == Some(s@),
            None => safe_file_name_spec(name@) is None,
        },
{
    let trimmed = trim(name);
    if trimmed.unicode_len() == 0 || text_equal(trimmed, ".") || text_equal(trimmed, "..") {
        return None;
    }
    // Any separator, drive letter or NUL means this is not a bare file name.
    if text_contains_char(trimmed, '/') || text_contains_char(trimmed, '\\') || text_contains_char(trimmed, '\0')
        || text_contains_char(trimmed, ':') {
        return None;
    }
    Some(trimmed)
}

/// A name accepted as a file name never leads out of the download directory: it is
/// not empty, not `.` or `..`, and holds no path separator, drive colon or NUL.
pub proof fn lemma_safe_names_stay_in_the_directory(name: Seq<char>)
    ensures
        safe_file_name_spec(name) matches Some(t) ==> t.len() > 0 && t != "."@ && t != ".."@ && !t.contains('/')
            && !t.contains('\\') && !t.contains(':') && !t.contains('\0'),
{
}

// ---------------------------------------------------------------------------
// Signatures
// ---------------------------------------------------------------------------

/// Whether `minisign_verify::PublicKey::decode` accepts a text.
pub uninterp spec fn minisign_key_decodes(text: Seq<char>) -> bool;

/// Whether `minisign_verify::Signature::decode` accepts a text.
pub uninterp spec fn minisign_signature_decodes(text: Seq<char>) -> bool;

/// Whether `minisign_verify` accepts a detached signature (as text) over `bytes`
/// under a public key (as text): both decode, and the signature verifies, legacy
/// signatures being accepted only when `allow_legacy` is set.
pub uninterp spec fn minisign_accepts(key: Seq<char>, bytes: Seq<u8>, signature: Seq<char>, allow_legacy: bool) -> bool;

/// Why `minisign_verify::PublicKey::decode` refuses a text, or `None` when it
/// decodes. Whether it decodes is named by the text alone.
#[verifier::external_body]
fn key_decode_error(text: &str) -> (r: Option<String>)
    ensures
        r is None <==> minisign_key_decodes(text@),
{
    minisign_verify::PublicKey::decode(text).err().map(|e| e.to_string())
}

/// Why `minisign_verify::Signature::decode` refuses a text, or `None` when it
/// decodes. Whether it decodes is named by the text alone.
#[verifier::external_body]
fn signature_decode_error(text: &str) -> (r: Option<String>)
    ensures
        r is None <==> minisign_signature_decodes(text@),
{
    minisign_verify::Signature::decode(text).err().map(|e| e.to_string())
}

/// Checks a detached signature over `bytes` with `minisign_verify`: the key and the
/// signature are decoded from their texts and `PublicKey::verify` is called with
/// `allow_legacy`. Its outcome is named by the four arguments; it succeeds only when
/// both texts decode. The error carries the crate's message.
#[verifier::external_body]
fn verify_detached(key_text: &str, bytes: &[u8], signature_text: &str, allow_legacy: bool) -> (r: Result<(), String>)
    ensures
        r is Ok <==> minisign_accepts(key_text@, bytes@, signature_text@, allow_legacy),
        r is Ok ==> minisign_key_decodes(key_text@) && minisign_signature_decodes(signature_text@),
{
    let key = minisign_verify::PublicKey::decode(key_text).map_err(|e| e.to_string())?;
    let signature = minisign_verify::Signature::decode(signature_text).map_err(|e| e.to_string())?;
    key.verify(bytes, &signature, allow_legacy).map_err(|e| e.to_string())
}

/// Reads bytes as UTF-8 text (`std::str::from_utf8`): text exactly when the bytes are
/// valid UTF-8, and then the text they encode.
#[verifier::external_body]
fn utf8_text(bytes: &[u8]) -> (r: Result<&str, String>)
    ensures
        r is Ok <==> valid_utf8(bytes@),
        r matches Ok(s) ==> s@ == decode_utf8(bytes@),
{
    std::str::from_utf8(bytes).map_err(|e| e.to_string())
}

/// A bad-signature error whose message begins with `prefix`.
pub open spec fn bad_signature_with(r: Result<(), UpdateError>, prefix: Seq<char>) -> bool {
    r matches Err(UpdateError::BadSignature(m)) && prefix.len() <= m@.len() && m@.subrange(0, prefix.len() as int)
        == prefix
}

fn bad_signature(prefix: &str, detail: &String) -> (r: Result<(), UpdateError>)
    ensures
        bad_signature_with(r, prefix@),
{
    let mut m = String::from_str(prefix);
    m.append(detail.as_str());
    assert(m@.subrange(0, prefix@.len() as int) =~= prefix@);
    Err(UpdateError::BadSignature(m))
}

/// Whether a download verifies: the key decodes, the signature file is UTF-8 text
/// that decodes, and minisign accepts the signature over the bytes, legacy signatures
/// refused.
pub open spec fn accepted(public_key: Seq<char>, bytes: Seq<u8>, signature: Seq<u8>) -> bool {
    &&& minisign_key_decodes(trim_spec(public_key))
    &&& valid_utf8(signature)
    &&& minisign_signature_decodes(decode_utf8(signature))
    &&& minisign_accepts(trim_spec(public_key), bytes, decode_utf8(signature), false)
}

/// Checks `bytes` against the detached minisign signature in `signature`, under the
/// public key text `public_key`. Fails closed: an unusable key, a signature that is not
/// text, and a malformed signature are each refused with their own message, and
/// nothing is accepted unless all three decode and the signature verifies.
pub fn verify_against(public_key: &str, bytes: &[u8], signature: &[u8]) -> (r: Result<(), UpdateError>)
    ensures
        r is Ok <==> accepted(public_key@, bytes@, signature@),
        r is Err ==> r matches Err(UpdateError::BadSignature(_)),
        !minisign_key_decodes(trim_spec(public_key@)) ==> bad_signature_with(
            r,
            "this build has no usable signing key: "@,
        ),
        minisign_key_decodes(trim_spec(public_key@)) && !valid_utf8(signature@) ==> bad_signature_with(
            r,
            "the signature file is not text: "@,
        ),
        minisign_key_decodes(trim_spec(public_key@)) && valid_utf8(signature@) && !minisign_signature_decodes(
            decode_utf8(signature@),
        ) ==> bad_signature_with(r, "malformed signature: "@),
{
    let key_text = trim(public_key);
    if let Some(e) = key_decode_error(key_text) {
        return bad_signature("this build has no usable signing key: ", &e);
    }
    let text = match utf8_text(signature) {
        Ok(text) => text,
        Err(e) => return bad_signature("the signature file is not text: ", &e),
    };
    if let Some(e) = signature_decode_error(text) {
        return bad_signature("malformed signature: ", &e);
    }
    match verify_detached(key_text, bytes, text, false) {
        Ok(()) => Ok(()),
        Err(e) => Err(UpdateError::BadSignature(e)),
    }
}

/// Checks `bytes` against the detached signature under [`PUBLIC_KEY`].
pub fn verify_signature(bytes: &[u8], signature: &[u8]) -> (r: Result<(), UpdateError>)
    ensures
        r is Ok <==> accepted(PUBLIC_KEY@, bytes@, signature@),
        r is Err ==> r matches Err(UpdateError::BadSignature(_)),
        !minisign_key_decodes(trim_spec(PUBLIC_KEY@)) ==> bad_signature_with(
            r,
            "this build has no usable signing key: "@,
        ),
        minisign_key_decodes(trim_spec(PUBLIC_KEY@)) && !valid_utf8(signature@) ==> bad_signature_with(
            r,
            "the signature file is not text: "@,
        ),
        minisign_key_decodes(trim_spec(PUBLIC_KEY@)) && valid_utf8(signature@) && !minisign_signature_decodes(
            decode_utf8(signature@),
        ) ==> bad_signature_with(r, "malformed signature: "@),
{
    verify_against(PUBLIC_KEY, bytes, signature)
}

// ---------------------------------------------------------------------------
// Which release
// ---------------------------------------------------------------------------

/// The latest release as the release feed describes it.
#[derive(Clone, Debug)]
pub struct ReleaseFeed {
    pub tag_name: String,
    pub body: String,
    pub html_url: String,
    pub assets: Vec<ReleaseAsset>,
    pub draft: bool,
    pub prerelease: bool,
}

/// A newer release than the one running.
#[derive(Clone, Debug)]
pub struct AvailableUpdate {
    /// Bare `X.Y.Z`, with the tag's `v` prefix and codename suffix stripped.
    pub version: String,
    /// The tag as the feed reports it, e.g. `v0.9.1-edge-routing`.
    pub tag: String,
    /// Release notes, as markdown. May be empty.
    pub notes: String,
    /// Where a human can read about it.
    pub page_url: String,
    /// The installer for this platform.
    pub installer: ReleaseAsset,
    /// Its detached minisign signature.
    pub signature: ReleaseAsset,
}

/// The first asset named exactly `name`.
pub open spec fn asset_named(assets: Seq<ReleaseAsset>, name: Seq<char>) -> Option<int>
    decreases assets.len(),
{
    if assets.len() == 0 {
        None
    } else if assets[0].name@ == name {
        Some(0)
    } else {
        match asset_named(assets.drop_first(), name) {
            Some(i) => Some(i + 1),
            None => None,
        }
    }
}

/// `major.minor.patch`.
pub open spec fn version_text(core: (u64, u64, u64)) -> Seq<char> {
    decimal(core.0 as nat) + "."@ + decimal(core.1 as nat) + "."@ + decimal(core.2 as nat)
}

/// Two assets with the same name and address.
pub open spec fn same_asset(a: ReleaseAsset, b: ReleaseAsset) -> bool {
    a.name@ == b.name@ && a.browser_download_url@ == b.browser_download_url@
}

fn copy_asset(a: &ReleaseAsset) -> (r: ReleaseAsset)
    ensures
        same_asset(r, *a),
{
    ReleaseAsset { name: a.name.clone(), browser_download_url: a.browser_download_url.clone() }
}

proof fn lemma_asset_named(assets: Seq<ReleaseAsset>, name: Seq<char>)
    ensures
        asset_named(assets, name) matches Some(i) ==> 0 <= i < assets.len() && assets[i].name@ == name
            && forall|j: int| 0 <= j < i ==> assets[j].name@ != name,
        asset_named(assets, name) is None ==> forall|j: int| 0 <= j < assets.len() ==> assets[j].name@ != name,
    decreases assets.len(),
{
    if assets.len() > 0 {
        lemma_asset_named(assets.drop_first(), name);
        assert forall|j: int| 1 <= j < assets.len() implies assets[j] == assets.drop_first()[j - 1] by {}
    }
}

proof fn lemma_asset_named_first(assets: Seq<ReleaseAsset>, name: Seq<char>, i: int)
    requires
        0 <= i < assets.len(),
        assets[i].name@ == name,
        forall|j: int| 0 <= j < i ==> assets[j].name@ != name,
    ensures
        asset_named(assets, name) == Some(i),
    decreases i,
{
    if i > 0 {
        assert(assets.drop_first()[i - 1] == assets[i]);
        assert forall|j: int| 0 <= j < i - 1 implies assets.drop_first()[j].name@ != name by {
            assert(assets.drop_first()[j] == assets[j + 1]);
        }
        lemma_asset_named_first(assets.drop_first(), name, i - 1);
    }
}

fn find_asset_named(assets: &Vec<ReleaseAsset>, name: &String) -> (r: Option<usize>)
    ensures
        r is None <==> asset_named(assets@, name@) is None,
        r matches Some(k) ==> asset_named(assets@, name@) == Some(k as int) && k < assets@.len(),
{
    proof {
        lemma_asset_named(assets@, name@);
    }
    let mut i: usize = 0;
    while i < assets.len()
        invariant
            i <= assets@.len(),
            forall|j: int| 0 <= j < i ==> assets@[j].name@ != name@,
        decreases assets@.len() - i,
    {
        if text_equal(assets[i].name.as_str(), name.as_str()) {
            proof {
                lemma_asset_named_first(assets@, name@, i as int);
            }
            return Some(i);
        }
        i += 1;
    }
    None
}

/// Decides what a published release means for this build. `newer_core` is the
/// release's `(major, minor, patch)` when its tag names a version newer than the
/// running one, and `None` when it does not.
///
/// A draft, a pre-release or a release that is not newer is no update. A newer one
/// must carry this platform's installer and, beside it, the installer's `.minisig`:
/// without either it is an error, never an unverified offer.
pub fn select_update(feed: &ReleaseFeed, newer_core: Option<(u64, u64, u64)>, platform: Platform) -> (r: Result<
    Option<AvailableUpdate>,
    UpdateError,
>)
    ensures
        feed.draft || feed.prerelease || newer_core is None ==> r matches Ok(None),
        !(feed.draft || feed.prerelease) ==> match newer_core {
            None => true,
            Some(core) => match pick_installer_spec(feed.assets@, installer_extensions(platform)) {
                None => r matches Err(UpdateError::NoArtifact(t)) && t@ == feed.tag_name@,
                Some(i) => match asset_named(feed.assets@, feed.assets@[i].name@ + ".minisig"@) {
                    None => r matches Err(UpdateError::NoSignature(t)) && t@ == feed.tag_name@,
                    Some(j) => r matches Ok(Some(u)) && u.version@ == version_text(core) && u.tag@ == feed.tag_name@
                        && u.notes@ == feed.body@ && u.page_url@ == feed.html_url@ && same_asset(
                        u.installer,
                        feed.assets@[i],
                    ) && same_asset(u.signature, feed.assets@[j]),
                },
            },
        },
{
    if feed.draft || feed.prerelease {
        return Ok(None);
    }
    let core = match newer_core {
        Some(c) => c,
        None => {
            return Ok(None);
        },
    };
    proof {
        lemma_pick_installer(feed.assets@, installer_extensions(platform));
    }
    let installer = match pick_installer(&feed.assets, platform) {
        Some(a) => a,
        None => {
            return Err(UpdateError::NoArtifact(feed.tag_name.clone()));
        },
    };
    let mut signature_name = installer.name.clone();
    signature_name.append(".minisig");
    proof {
        reveal_strlit(".minisig");
    }
    let ghost pick = pick_installer_spec(feed.assets@, installer_extensions(platform));
    assert(pick matches Some(i) && signature_name@ == feed.assets@[i].name@ + ".minisig"@);
    let j = match find_asset_named(&feed.assets, &signature_name) {
        Some(j) => j,
        None => {
            return Err(UpdateError::NoSignature(feed.tag_name.clone()));
        },
    };
    let signature = copy_asset(&feed.assets[j]);
    assert(asset_named(feed.assets@, feed.assets@[pick->0].name@ + ".minisig"@) == Some(j as int));
    let mut version = String::new();
    push_decimal(&mut version, core.0);
    version.append(".");
    push_decimal(&mut version, core.1);
    version.append(".");
    push_decimal(&mut version, core.2);
    assert(version@ =~= version_text(core));
    Ok(
        Some(
            AvailableUpdate {
                version,
                tag: feed.tag_name.clone(),
                notes: feed.body.clone(),
                page_url: feed.html_url.clone(),
                installer,
                signature,
            },
        ),
    )
}

/// An offered update's signature is the installer's own: the asset named like the
/// installer with `.minisig` appended, and the installer itself is never a
/// signature file.
pub proof fn lemma_offered_update_is_signed(assets: Seq<ReleaseAsset>, platform: Platform)
    ensures
        pick_installer_spec(assets, installer_extensions(platform)) matches Some(i) ==> (asset_named(
            assets,
            assets[i].name@ + ".minisig"@,
        ) matches Some(j) ==> 0 <= j < assets.len() && assets[j].name@ == assets[i].name@ + ".minisig"@
            && !ends_with(assets[i].name@, ".minisig"@)),
{
    lemma_pick_installer(assets, installer_extensions(platform));
    if let Some(i) = pick_installer_spec(assets, installer_extensions(platform)) {
        lemma_asset_named(assets, assets[i].name@ + ".minisig"@);
    }
}

/// The update to announce: none when the user chose to skip exactly this version.
pub fn update_to_offer(update: AvailableUpdate, skipped: &Option<String>) -> (r: Option<AvailableUpdate>)
    ensures
        match skipped {
            Some(v) => if v@ == update.version@ { r is None } else { r == Some(update) },
            None => r == Some(update),
        },
{
    match skipped {
        Some(v) => if text_equal(v.as_str(), update.version.as_str()) {
            None
        } else {
            Some(update)
        },
        None => Some(update),
    }
}

} // verus!
