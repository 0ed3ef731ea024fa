//! Choices around the ADB tool on this computer: its file name, where to look
//! for it and in which order, where the app keeps its data, how a downloaded
//! copy is checked and unpacked, and how the tool's origin is described.
use vstd::prelude::*;
use sha2::Digest;
use crate::i18n::{I18n, Notice, t, translate};
use crate::platform::Platform;
use crate::text::{chars_of, push_char, push_str, same_chars};

verus! {

broadcast use vstd::string::group_string_axioms;

/// File name of the ADB executable.
pub open spec fn executable_name(platform: Platform) -> Seq<char> {
    match platform {
        Platform::Windows => "adb.exe"@,
        _ => "adb"@,
    }
}

/// File name of the ADB executable on this platform.
pub fn executable(platform: Platform) -> (r: &'static str)
    ensures
        r@ == executable_name(platform),
{
    match platform {
        Platform::Windows => "adb.exe",
        _ => "adb",
    }
}

/// Version of the official Platform-Tools this app prepares.
pub const VERSION: &'static str = "37.0.1";

/// Page with the terms of the Google SDK Platform-Tools.
pub const TERMS: &'static str = "https://developer.android.com/tools/releases/platform-tools#downloads";

/// Largest settings file that is read.
pub const SETTINGS_LIMIT: u64 = 16384;

/// Largest archive, and largest member of it, that is accepted.
pub const ARCHIVE_LIMIT: u64 = 67108864;

// ---------------------------------------------------------------------------
// Where to look for ADB
// ---------------------------------------------------------------------------

/// A candidate path with whether its folder is absolute.
pub open spec fn absolute_paths(dirs: Seq<(String, bool)>) -> Seq<Seq<char>>
    decreases dirs.len(),
{
    if dirs.len() == 0 {
        seq![]
    } else if dirs.last().1 {
        absolute_paths(dirs.drop_last()).push(dirs.last().0@)
    } else {
        absolute_paths(dirs.drop_last())
    }
}

/// The present value, as a sequence of at most one.
pub open spec fn opt_seq(o: Option<String>) -> Seq<Seq<char>> {
    match o {
        Some(s) => seq![s@],
        None => seq![],
    }
}

/// The places to look for ADB, in order: the file the user selected before;
/// unless the system tools are to be ignored, the SDK folders named by the
/// environment, the SDK in its usual place in the user's folders, and the
/// `PATH` folders that are absolute (an executable that happens to sit in
/// the working folder is never picked up); last, the copy this app prepared.
pub open spec fn search_order(
    saved: Option<String>,
    sdk_homes: Seq<String>,
    user_sdk: Option<String>,
    path_dirs: Seq<(String, bool)>,
    prepared: Option<String>,
    ignore_system: bool,
) -> Seq<Seq<char>> {
    opt_seq(saved) + (if ignore_system {
        seq![]
    } else {
        sdk_homes.map_values(|s: String| s@) + opt_seq(user_sdk) + absolute_paths(path_dirs)
    }) + opt_seq(prepared)
}

fn copy_string(s: &String) -> (r: String)
    ensures
        r@ == s@,
{
    let mut r = String::new();
    push_str(&mut r, s.as_str());
    r
}

fn push_opt(out: &mut Vec<String>, o: &Option<String>)
    ensures
        final(out)@.map_values(|s: String| s@) == old(out)@.map_values(|s: String| s@) + opt_seq(
            *o,
        ),
{
    let ghost before = out@;
    match o {
        Some(s) => {
            out.push(copy_string(s));
            assert(out@.map_values(|s: String| s@) =~= before.map_values(|s: String| s@) + opt_seq(
                *o,
            ));
        },
        None => {
            assert(out@.map_values(|s: String| s@) =~= before.map_values(|s: String| s@) + opt_seq(
                *o,
            ));
        },
    }
}

/// The paths where ADB is looked for, in the order they are tried.
pub fn candidates(
    saved: Option<String>,
    sdk_homes: Vec<String>,
    user_sdk: Option<String>,
    path_dirs: Vec<(String, bool)>,
    prepared: Option<String>,
    ignore_system: bool,
) -> (r: Vec<String>)
    ensures
        r@.map_values(|s: String| s@) == search_order(
            saved,
            sdk_homes@,
            user_sdk,
            path_dirs@,
            prepared,
            ignore_system,
        ),
{
    let mut out: Vec<String> = Vec::new();
    assert(out@.map_values(|s: String| s@) =~= Seq::<Seq<char>>::empty());
    push_opt(&mut out, &saved);
    let ghost head = out@.map_values(|s: String| s@);
    if !ignore_system {
        let mut i: usize = 0;
        while i < sdk_homes.len()
            invariant
                i <= sdk_homes@.len(),
                out@.map_values(|s: String| s@) == head + sdk_homes@.map_values(|s: String| s@).take(
                    i as int,
                ),
            decreases sdk_homes@.len() - i,
        {
            let ghost before = out@;
            out.push(copy_string(&sdk_homes[i]));
            assert(out@.map_values(|s: String| s@) =~= before.map_values(|s: String| s@).push(
                sdk_homes@[i as int]@,
            ));
            assert(sdk_homes@.map_values(|s: String| s@).take(i + 1) =~= sdk_homes@.map_values(
                |s: String| s@,
            ).take(i as int).push(sdk_homes@[i as int]@));
            i = i + 1;
            assert(out@.map_values(|s: String| s@) =~= head + sdk_homes@.map_values(
                |s: String| s@,
            ).take(i as int));
        }
        assert(sdk_homes@.map_values(|s: String| s@).take(sdk_homes@.len() as int)
            =~= sdk_homes@.map_values(|s: String| s@));
        push_opt(&mut out, &user_sdk);
        let ghost mid = out@.map_values(|s: String| s@);
        let mut k: usize = 0;
        assert(path_dirs@.take(0) =~= Seq::<(String, bool)>::empty());
        while k < path_dirs.len()
            invariant
                k <= path_dirs@.len(),
                out@.map_values(|s: String| s@) == mid + absolute_paths(path_dirs@.take(k as int)),
            decreases path_dirs@.len() - k,
        {
            assert(path_dirs@.take(k + 1).drop_last() =~= path_dirs@.take(k as int));
            assert(path_dirs@.take(k + 1).last() == path_dirs@[k as int]);
            let ghost before = out@;
            if path_dirs[k].1 {
                out.push(copy_string(&path_dirs[k].0));
                assert(out@.map_values(|s: String| s@) =~= before.map_values(|s: String| s@).push(
                    path_dirs@[k as int].0@,
                ));
            }
            k = k + 1;
            assert(out@.map_values(|s: String| s@) =~= mid + absolute_paths(
                path_dirs@.take(k as int),
            ));
        }
        assert(path_dirs@.take(path_dirs@.len() as int) =~= path_dirs@);
    }
    push_opt(&mut out, &prepared);
    assert(out@.map_values(|s: String| s@) =~= search_order(
        saved,
        sdk_homes@,
        user_sdk,
        path_dirs@,
        prepared,
        ignore_system,
    ));
    out
}

// ---------------------------------------------------------------------------
// The app's data folder
// ---------------------------------------------------------------------------

/// The qualifier, organization and application names under which the app
/// keeps its data (`ai`, `tinygem`, `adb-on`).
pub fn app_folder_names() -> (r: (&'static str, &'static str, &'static str))
    ensures
        r.0@ == "ai"@,
        r.1@ == "tinygem"@,
        r.2@ == "adb-on"@,
{
    ("ai", "tinygem", "adb-on")
}

/// The local data folder of the application `application` of
/// `organization` under `qualifier`, found by `directories`'
/// `ProjectDirs::from` and `data_local_dir`, as the path's bytes in the
/// platform's encoding (`OsStr::as_encoded_bytes`). It depends on the user's
/// environment; nothing is claimed of it.
#[verifier::external_body]
fn project_data_dir(qualifier: &str, organization: &str, application: &str) -> (r: Option<Vec<u8>>) {
    directories::ProjectDirs::from(qualifier, organization, application).map(
        |d| d.data_local_dir().as_os_str().as_encoded_bytes().to_vec(),
    )
}

/// The data folder, as the bytes of a path in the platform's encoding, given
/// the developer switch and the user's local data folder for this app as
/// found (`found`): the switch when it is set and not empty, otherwise the
/// folder found; `NoDataDir` when there is none.
pub fn data_dir_from(switch: Option<Vec<u8>>, found: Option<Vec<u8>>) -> (r: Result<Vec<u8>, Notice>)
    ensures
        (switch matches Some(s) && s@.len() > 0) ==> (r matches Ok(d) && d@ == switch->Some_0@),
        !(switch matches Some(s) && s@.len() > 0) ==> match found {
            Some(f) => r matches Ok(d) && d@ == f@,
            None => r == Err::<Vec<u8>, Notice>(Notice::NoDataDir),
        },
{
    match switch {
        Some(s) => {
            if s.len() > 0 {
                return Ok(s);
            }
        },
        None => {},
    }
    match found {
        Some(d) => Ok(d),
        None => Err(Notice::NoDataDir),
    }
}

/// The folder that holds the app's settings and prepared tools, as the bytes
/// of a path in the platform's encoding: the folder named by the developer
/// switch when it is set and not empty, otherwise the user's local data
/// folder for this app, looked up under `app_folder_names`; `NoDataDir`
/// when there is none. Which folder the user's environment gives is not
/// stated.
pub fn data_dir(switch: Option<Vec<u8>>) -> (r: Result<Vec<u8>, Notice>)
    ensures
        (switch matches Some(s) && s@.len() > 0) ==> (r matches Ok(d) && d@ == switch->Some_0@),
        !(switch matches Some(s) && s@.len() > 0) ==> (r is Ok || r == Err::<Vec<u8>, Notice>(
            Notice::NoDataDir,
        )),
{
    let (qualifier, organization, application) = app_folder_names();
    let found = project_data_dir(qualifier, organization, application);
    data_dir_from(switch, found)
}

/// A folder name of the app's own (`adb-on`, `tinygem`), which may be removed
/// with the data when empty.
pub open spec fn own_folder(name: Option<Seq<char>>) -> bool {
    name == Some("adb-on"@) || name == Some("tinygem"@)
}

/// Whether an emptied parent folder of the data folder is the app's own and
/// may be removed; other folders are left alone.
pub fn prunable(name: Option<&str>) -> (r: bool)
    ensures
        r == own_folder(
            match name {
                Some(n) => Some(n@),
                None => None,
            },
        ),
{
    match name {
        Some(n) => {
            let v = chars_of(n);
            same_chars(&v, &chars_of("adb-on")) || same_chars(&v, &chars_of("tinygem"))
        },
        None => false,
    }
}

/// A path as shown: without the `\\?\` prefix.
pub open spec fn shown_path(p: Seq<char>) -> Seq<char> {
    if p.len() >= 4 && p.take(4) == seq!['\\', '\\', '?', '\\'] {
        p.skip(4)
    } else {
        p
    }
}

/// The form in which a canonical path is shown to the user.
pub fn display_form(path: &str) -> (r: String)
    ensures
        r@ == shown_path(path@),
{
    let v = chars_of(path);
    let from: usize = if v.len() >= 4 && v[0] == '\\' && v[1] == '\\' && v[2] == '?' && v[3]
        == '\\' {
        assert(v@.take(4) =~= seq!['\\', '\\', '?', '\\']);
        4
    } else {
        assert(v@.len() >= 4 ==> v@.take(4)[0] == v@[0] && v@.take(4)[1] == v@[1] && v@.take(4)[2]
            == v@[2] && v@.take(4)[3] == v@[3]);
        0
    };
    let r = crate::text::string_of(&v, from, v.len());
    assert(v@.subrange(from as int, v@.len() as int) =~= shown_path(path@));
    r
}

// ---------------------------------------------------------------------------
// Settings
// ---------------------------------------------------------------------------

/// The UTF-8 byte order mark.
pub open spec fn bom() -> Seq<u8> {
    seq![0xefu8, 0xbbu8, 0xbfu8]
}

/// The settings text to parse: a file over the size limit is ignored, and a
/// byte order mark that an editor added is dropped.
pub open spec fn settings_text(size: u64, bytes: Seq<u8>) -> Option<Seq<u8>> {
    if size > SETTINGS_LIMIT {
        None
    } else if bytes.len() >= 3 && bytes.take(3) == bom() {
        Some(bytes.skip(3))
    } else {
        Some(bytes)
    }
}

/// The bytes of a settings file of `size` bytes that are to be parsed.
pub fn settings_payload(size: u64, bytes: &[u8]) -> (r: Option<Vec<u8>>)
    ensures
        match settings_text(size, bytes@) {
            Some(b) => r matches Some(v) && v@ == b,
            None => r is None,
        },
{
    if size > SETTINGS_LIMIT {
        return None;
    }
    let bom_here = bytes.len() >= 3 && bytes[0] == 0xef && bytes[1] == 0xbb && bytes[2] == 0xbf;
    proof {
        if bytes@.len() >= 3 {
            if bom_here {
                assert(bytes@.take(3) =~= bom());
            } else {
                assert(bytes@.take(3)[0] == bytes@[0] && bytes@.take(3)[1] == bytes@[1]
                    && bytes@.take(3)[2] == bytes@[2]);
            }
        }
    }
    let from: usize = if bom_here {
        3
    } else {
        0
    };
    let mut v: Vec<u8> = Vec::new();
    let mut i = from;
    while i < bytes.len()
        invariant
            from <= i <= bytes@.len(),
            v@ == bytes@.subrange(from as int, i as int),
        decreases bytes@.len() - i,
    {
        v.push(bytes[i]);
        i = i + 1;
        assert(v@ =~= bytes@.subrange(from as int, i as int));
    }
    assert(bytes@.subrange(from as int, bytes@.len() as int) =~= (if bom_here {
        bytes@.skip(3)
    } else {
        bytes@
    }));
    Some(v)
}

// ---------------------------------------------------------------------------
// Preparing the official tools
// ---------------------------------------------------------------------------

/// The manifest entry to download for this platform, once the terms were
/// accepted: `TermsRequired` without consent, `PlatformUnsupported` outside
/// Windows and macOS.
pub open spec fn download_entry(consented: bool, platform: Platform) -> Result<Seq<char>, Notice> {
    if !consented {
        Err(Notice::TermsRequired)
    } else {
        match platform {
            Platform::Windows => Ok("windows"@),
            Platform::MacOs => Ok("macos"@),
            Platform::Linux => Err(Notice::PlatformUnsupported),
        }
    }
}

/// Which manifest entry to download.
pub fn download_platform(consented: bool, platform: Platform) -> (r: Result<&'static str, Notice>)
    ensures
        match download_entry(consented, platform) {
            Ok(e) => r matches Ok(x) && x@ == e,
            Err(n) => r == Err::<&'static str, Notice>(n),
        },
{
    if !consented {
        return Err(Notice::TermsRequired);
    }
    match platform {
        Platform::Windows => Ok("windows"),
        Platform::MacOs => Ok("macos"),
        Platform::Linux => Err(Notice::PlatformUnsupported),
    }
}

/// Whether the manifest text parses as JSON.
pub uninterp spec fn manifest_parses(manifest: Seq<char>) -> bool;

/// The text at `field` of the manifest's object `entry`, when the manifest
/// parses, has that entry and field, and the field is a string.
pub uninterp spec fn manifest_field(manifest: Seq<char>, entry: Seq<char>, field: Seq<char>) -> Option<
    Seq<char>,
>;

/// Parses the manifest with `serde_json::from_str` into a
/// `serde_json::Value`. Claimed: whether it succeeds is the named function of
/// the text.
#[verifier::external_body]
fn parses(manifest: &str) -> (r: bool)
    ensures
        r == manifest_parses(manifest@),
{
    serde_json::from_str::<serde_json::Value>(manifest).is_ok()
}

/// `manifest[entry][field].as_str()` on the `serde_json::Value` that
/// `serde_json::from_str` gives (indexing a missing key or a non-object gives
/// `Null`, which is no string); none when the text does not parse. Claimed:
/// the result is the named function of the three texts.
#[verifier::external_body]
fn manifest_text(manifest: &str, entry: &str, field: &str) -> (r: Option<String>)
    ensures
        match r {
            Some(s) => manifest_field(manifest@, entry@, field@) == Some(s@),
            None => manifest_field(manifest@, entry@, field@) is None,
        },
{
    let value = serde_json::from_str::<serde_json::Value>(manifest).ok()?;
    value[entry][field].as_str().map(str::to_string)
}

/// Where to download the official tools for `platform` and the SHA-256 the
/// archive must have, from the download manifest: refused without consent or
/// on an unsupported platform (as `download_entry`), when the manifest does
/// not parse (`DownloadInfo`), and when the platform's entry gives no `url`
/// (`DownloadUrl`) or no `sha256` (`DownloadHash`).
pub fn download_source(consented: bool, platform: Platform, manifest: &str) -> (r: Result<
    (String, String),
    Notice,
>)
    ensures
        match download_entry(consented, platform) {
            Err(n) => r == Err::<(String, String), Notice>(n),
            Ok(e) => if !manifest_parses(manifest@) {
                r == Err::<(String, String), Notice>(Notice::DownloadInfo)
            } else {
                match (manifest_field(manifest@, e, "url"@), manifest_field(manifest@, e, "sha256"@)) {
                    (Some(u), Some(h)) => r matches Ok(p) && p.0@ == u && p.1@ == h,
                    (None, _) => r == Err::<(String, String), Notice>(Notice::DownloadUrl),
                    (Some(_), None) => r == Err::<(String, String), Notice>(Notice::DownloadHash),
                }
            },
        },
{
    let entry = match download_platform(consented, platform) {
        Ok(e) => e,
        Err(n) => {
            return Err(n);
        },
    };
    if !parses(manifest) {
        return Err(Notice::DownloadInfo);
    }
    let url = match manifest_text(manifest, entry, "url") {
        Some(u) => u,
        None => {
            return Err(Notice::DownloadUrl);
        },
    };
    match manifest_text(manifest, entry, "sha256") {
        Some(h) => Ok((url, h)),
        None => Err(Notice::DownloadHash),
    }
}

/// The files taken from the archive's `platform-tools` folder.
pub open spec fn members(platform: Platform) -> Seq<Seq<char>> {
    match platform {
        Platform::Windows => seq![
            "adb.exe"@,
            "AdbWinApi.dll"@,
            "AdbWinUsbApi.dll"@,
            "NOTICE.txt"@,
            "source.properties"@,
        ],
        _ => seq!["adb"@, "NOTICE.txt"@, "source.properties"@],
    }
}

/// The files to take from the official archive.
pub fn archive_members(platform: Platform) -> (r: Vec<&'static str>)
    ensures
        r@.map_values(|s: &str| s@) == members(platform),
{
    let r: Vec<&'static str> = match platform {
        Platform::Windows => vec![
            "adb.exe",
            "AdbWinApi.dll",
            "AdbWinUsbApi.dll",
            "NOTICE.txt",
            "source.properties",
        ],
        _ => vec!["adb", "NOTICE.txt", "source.properties"],
    };
    assert(r@.map_values(|s: &str| s@) =~= members(platform));
    r
}

/// The SHA-256 digest of the bytes.
pub uninterp spec fn sha256(data: Seq<u8>) -> Seq<u8>;

/// SHA-256 of the bytes by `sha2`'s `Sha256::digest`. Claimed: the result is
/// the named digest of the bytes, 32 bytes long.
#[verifier::external_body]
fn sha256_digest(data: &[u8]) -> (r: Vec<u8>)
    ensures
        r@ == sha256(data@),
        r@.len() == 32,
{
    sha2::Sha256::digest(data).to_vec()
}

// ---------------------------------------------------------------------------
// Unpacking the archive
// ---------------------------------------------------------------------------

/// Whether the bytes open as a ZIP archive.
pub uninterp spec fn zip_opens(archive: Seq<u8>) -> bool;

/// The uncompressed size that the archive records for the member at `path`.
pub uninterp spec fn zip_size(archive: Seq<u8>, path: Seq<char>) -> Option<u64>;

/// The uncompressed bytes of the member at `path`.
pub uninterp spec fn zip_data(archive: Seq<u8>, path: Seq<char>) -> Option<Seq<u8>>;

/// Opens the bytes with `zip::ZipArchive::new`. Claimed: the result is the
/// named function of the bytes.
#[verifier::external_body]
fn archive_opens(archive: &[u8]) -> (r: bool)
    ensures
        r == zip_opens(archive@),
{
    zip::ZipArchive::new(std::io::Cursor::new(archive)).is_ok()
}

/// The size `zip::read::ZipFile::size` reports for the member found by
/// `ZipArchive::by_name` (the archive opened as by `archive_opens`); none
/// when the archive does not open or has no such member. Claimed: the result
/// is the named function of the bytes and the path; nothing is decompressed.
#[verifier::external_body]
fn member_size(archive: &[u8], path: &str) -> (r: Option<u64>)
    ensures
        r == zip_size(archive@, path@),
{
    let mut z = zip::ZipArchive::new(std::io::Cursor::new(archive)).ok()?;
    let member = z.by_name(path).ok()?;
    Some(member.size())
}

/// The member found by `ZipArchive::by_name`, read to its end with
/// `std::io::Read::read_to_end`; none when opening, finding or reading
/// fails. Claimed: the result is the named function of the bytes and the
/// path. How the bytes relate to the recorded size is not stated.
#[verifier::external_body]
fn member_data(archive: &[u8], path: &str) -> (r: Option<Vec<u8>>)
    ensures
        match r {
            Some(v) => zip_data(archive@, path@) == Some(v@),
            None => zip_data(archive@, path@) is None,
        },
{
    let mut z = zip::ZipArchive::new(std::io::Cursor::new(archive)).ok()?;
    let mut member = z.by_name(path).ok()?;
    let mut out = Vec::new();
    std::io::Read::read_to_end(&mut member, &mut out).ok()?;
    Some(out)
}

/// Where a member of the official archive lies: under `platform-tools/`.
pub open spec fn member_path(name: Seq<char>) -> Seq<char> {
    "platform-tools/"@ + name
}

/// The outcome of taking the member `name` out of the archive: refused when
/// the archive does not open, when the member is missing or larger than
/// `ARCHIVE_LIMIT`, or when it cannot be read; otherwise its bytes.
pub open spec fn unpacked(archive: Seq<u8>, name: Seq<char>) -> Result<Seq<u8>, Notice> {
    let path = member_path(name);
    if !zip_opens(archive) {
        Err(Notice::ArchiveUnreadable)
    } else {
        match zip_size(archive, path) {
            None => Err(Notice::MemberMissing),
            Some(n) => if n > ARCHIVE_LIMIT {
                Err(Notice::MemberTooLarge)
            } else {
                match zip_data(archive, path) {
                    Some(d) => Ok(d),
                    None => Err(Notice::MemberUnreadable),
                }
            },
        }
    }
}

/// The bytes of the member `name` of the downloaded archive, checked against
/// the size limit before anything is decompressed.
pub fn archive_member(archive: &[u8], name: &str) -> (r: Result<Vec<u8>, Notice>)
    ensures
        match unpacked(archive@, name@) {
            Ok(d) => r matches Ok(v) && v@ == d,
            Err(n) => r == Err::<Vec<u8>, Notice>(n),
        },
{
    if !archive_opens(archive) {
        return Err(Notice::ArchiveUnreadable);
    }
    let mut path = String::new();
    push_str(&mut path, "platform-tools/");
    push_str(&mut path, name);
    assert(path@ == member_path(name@));
    match member_size(archive, path.as_str()) {
        None => Err(Notice::MemberMissing),
        Some(n) => {
            if n > ARCHIVE_LIMIT {
                Err(Notice::MemberTooLarge)
            } else {
                match member_data(archive, path.as_str()) {
                    Some(d) => Ok(d),
                    None => Err(Notice::MemberUnreadable),
                }
            }
        },
    }
}

/// A small-letter hexadecimal digit.
pub open spec fn hex_digit(d: u8) -> char {
    if d < 10 {
        ((48 + d) as u8) as char
    } else {
        ((87 + d) as u8) as char
    }
}

/// The bytes as two small-letter hexadecimal digits each (`{:02x}`).
pub open spec fn hex_text(b: Seq<u8>) -> Seq<char>
    decreases b.len(),
{
    if b.len() == 0 {
        seq![]
    } else {
        hex_text(b.drop_last()) + seq![hex_digit(b.last() / 16), hex_digit(b.last() % 16)]
    }
}

/// Whether the digest, written in small hexadecimal digits, is the expected
/// text.
pub fn digest_matches(digest: &[u8], expected: &str) -> (r: bool)
    ensures
        r == (hex_text(digest@) == expected@),
{
    let mut h: Vec<char> = Vec::new();
    let mut i: usize = 0;
    assert(digest@.take(0) =~= Seq::<u8>::empty());
    while i < digest.len()
        invariant
            i <= digest@.len(),
            h@ == hex_text(digest@.take(i as int)),
        decreases digest@.len() - i,
    {
        let b = digest[i];
        let hi = b / 16;
        let lo = b % 16;
        h.push(
            if hi < 10 {
                ((48 + hi) as u8) as char
            } else {
                ((87 + hi) as u8) as char
            },
        );
        h.push(
            if lo < 10 {
                ((48 + lo) as u8) as char
            } else {
                ((87 + lo) as u8) as char
            },
        );
        assert(digest@.take(i + 1).drop_last() =~= digest@.take(i as int));
        i = i + 1;
        assert(h@ =~= hex_text(digest@.take(i as int)));
    }
    assert(digest@.take(digest@.len() as int) =~= digest@);
    let e = chars_of(expected);
    same_chars(&h, &e)
}

/// Whether the downloaded archive is the official one: its SHA-256 digest
/// in small hexadecimal digits equals the manifest's.
pub fn archive_intact(archive: &[u8], expected: &str) -> (r: bool)
    ensures
        r == (hex_text(sha256(archive@)) == expected@),
{
    let d = sha256_digest(archive);
    digest_matches(&d, expected)
}

// ---------------------------------------------------------------------------
// Where the tool in use comes from
// ---------------------------------------------------------------------------

pub const SOURCE_OWN: &'static str = "adb-on이 준비한 Google 공식 도구";

pub const SOURCE_SELECTED: &'static str = "직접 선택한 파일";

pub const SOURCE_SDK: &'static str = "이 PC의 Android SDK";

pub const SOURCE_PATH: &'static str = "PATH에서 찾은 도구";

/// The origin of the tool in use: 1 the copy this app prepared, 2 the file
/// the user selected, 3 an Android SDK on this computer, 4 found on `PATH`;
/// the first that applies.
pub open spec fn source_kind(own: bool, selected: bool, sdk: bool) -> i32 {
    if own {
        1
    } else if selected {
        2
    } else if sdk {
        3
    } else {
        4
    }
}

/// The origin of the tool in use, with the sentence that names it, given
/// whether its path is that of the prepared copy, of the saved selection, or
/// of an SDK folder.
pub fn describe_source(own: bool, selected: bool, sdk: bool, s: &I18n) -> (r: (i32, String))
    ensures
        r.0 == source_kind(own, selected, sdk),
        r.1@ == translate(
            *s,
            if own {
                SOURCE_OWN@
            } else if selected {
                SOURCE_SELECTED@
            } else if sdk {
                SOURCE_SDK@
            } else {
                SOURCE_PATH@
            },
        ),
{
    if own {
        (1, t(s, SOURCE_OWN))
    } else if selected {
        (2, t(s, SOURCE_SELECTED))
    } else if sdk {
        (3, t(s, SOURCE_SDK))
    } else {
        (4, t(s, SOURCE_PATH))
    }
}

} // verus!
