//! Choices made when a Java environment is set up: which version is asked
//! for, which download fits the machine, what the download is called.

use crate::text::{
    char_len, chars_of, ends_with, has_prefix, has_suffix, last_of, lemma_last_of, lemma_none_of,
    lemma_split_nonempty, optional_text, rfind_char, slice, split_on, split_spec, starts_with,
    str_eq, texts,
};
use vstd::prelude::*;

verus! {

/// The build tool of an environment, with its version.
#[derive(Debug)]
pub enum BuildTool {
    Maven(String),
    Gradle(String),
}

impl Clone for BuildTool {
    fn clone(&self) -> (r: Self)
        ensures
            r.name() == self.name(),
            r.version() == self.version(),
    {
        match self {
            BuildTool::Maven(v) => BuildTool::Maven(v.clone()),
            BuildTool::Gradle(v) => BuildTool::Gradle(v.clone()),
        }
    }
}

impl BuildTool {
    /// The name of the tool: `maven` or `gradle`.
    pub open spec fn name(self) -> Seq<char> {
        match self {
            BuildTool::Maven(_) => "maven"@,
            BuildTool::Gradle(_) => "gradle"@,
        }
    }

    /// The version of the tool.
    pub open spec fn version(self) -> Seq<char> {
        match self {
            BuildTool::Maven(v) => v@,
            BuildTool::Gradle(v) => v@,
        }
    }

    /// The name of the tool.
    pub fn tool_name(&self) -> (r: &'static str)
        ensures
            r@ == self.name(),
    {
        match self {
            BuildTool::Maven(_) => "maven",
            BuildTool::Gradle(_) => "gradle",
        }
    }

    /// The version of the tool.
    pub fn tool_version(&self) -> (r: &String)
        ensures
            r@ == self.version(),
    {
        match self {
            BuildTool::Maven(v) => v,
            BuildTool::Gradle(v) => v,
        }
    }
}

/// Why an environment cannot be set up.
#[derive(Debug)]
pub enum VenvError {
    /// The text names no Java version.
    InvalidJavaVersion(String),
    /// The Java version is outside 8 to 25.
    UnsupportedJavaVersion(u8),
    /// No release of this Java version is on offer.
    NoRelease(u8),
    /// No release of this Java version fits the machine.
    NoDownload(u8),
    /// The address names no file.
    NoFilename(String),
    /// The file name in the address is not percent-encoded UTF-8.
    BadEncoding(String),
}

/// The value of a decimal digit.
pub open spec fn digit_value(c: char) -> Option<nat> {
    if 48 <= c as u32 <= 57 {
        Some((c as u32 - 48) as nat)
    } else {
        None
    }
}

/// The number that a text of decimal digits denotes; the empty text
/// denotes 0. A text with another character denotes none.
pub open spec fn digits_value(s: Seq<char>) -> Option<nat>
    decreases s.len(),
{
    if s.len() == 0 {
        Some(0)
    } else {
        match (digits_value(s.drop_last()), digit_value(s.last())) {
            (Some(high), Some(low)) => Some(high * 10 + low),
            _ => None,
        }
    }
}

/// The digits of a number text: the text without the plus sign that may
/// stand before them.
pub open spec fn unsigned_part(s: Seq<char>) -> Seq<char> {
    if s.len() > 0 && s[0] == '+' {
        s.drop_first()
    } else {
        s
    }
}

/// The number below 256 that a text denotes: one decimal digit or more,
/// with or without a plus sign before them.
pub open spec fn small_number(s: Seq<char>) -> Option<u8> {
    let digits = unsigned_part(s);
    match digits_value(digits) {
        Some(v) => if digits.len() > 0 && v <= 255 {
            Some(v as u8)
        } else {
            None
        },
        None => None,
    }
}

/// The major Java version that a text asks for: what stands behind `1.`
/// where the text begins so, else what stands before the first dot, else
/// the whole text, read as a number below 256.
pub open spec fn java_major(version: Seq<char>) -> Option<u8> {
    if has_prefix(version, "1."@) {
        small_number(version.subrange(2, version.len() as int))
    } else {
        small_number(split_spec(version, '.')[0])
    }
}

/// The number below 256 that a text denotes.
pub fn parse_small_number(s: &str) -> (r: Option<u8>)
    ensures
        r == small_number(s@),
{
    let chars = chars_of(s);
    let n = chars.len();
    let start: usize = if n > 0 && chars[0] == '+' {
        1
    } else {
        0
    };
    let ghost digits = unsigned_part(s@);
    proof {
        assert(digits =~= s@.subrange(start as int, n as int));
    }
    if start == n {
        return None;
    }
    let mut value: u32 = 0;
    let mut i: usize = start;
    assert(digits.take(0) =~= Seq::<char>::empty());
    while i < n
        invariant
            start <= i <= n,
            start < n,
            n == chars@.len(),
            chars@ == s@,
            digits == unsigned_part(s@),
            digits == s@.subrange(start as int, n as int),
            value <= 255,
            digits_value(digits.take(i - start)) == Some(value as nat),
        decreases n - i,
    {
        let c = chars[i];
        let code = c as u32;
        let ghost seen = digits.take(i - start);
        let ghost next = digits.take(i + 1 - start);
        proof {
            assert(next.drop_last() =~= seen);
            assert(next.last() == c);
        }
        if code < 48 || code > 57 {
            proof {
                assert(digits_value(next) is None);
                lemma_digits_fail(digits, i + 1 - start);
            }
            return None;
        }
        let d = code - 48;
        let grown = value * 10 + d;
        assert(digits_value(next) == Some(grown as nat));
        if grown > 255 {
            proof {
                lemma_digits_grow(digits, i + 1 - start);
            }
            return None;
        }
        value = grown;
        i = i + 1;
    }
    assert(digits.take(n - start) =~= digits);
    Some(value as u8)
}

/// Once a beginning of a text denotes no number, the text denotes none.
pub proof fn lemma_digits_fail(s: Seq<char>, k: int)
    requires
        1 <= k <= s.len(),
        digits_value(s.take(k)) is None,
    ensures
        digits_value(s) is None,
    decreases s.len() - k,
{
    if k < s.len() {
        assert(s.take(k + 1).drop_last() =~= s.take(k));
        lemma_digits_fail(s, k + 1);
    } else {
        assert(s.take(k) =~= s);
    }
}

/// Once a beginning of a text denotes more than 255, the text denotes
/// nothing below 256.
pub proof fn lemma_digits_grow(s: Seq<char>, k: int)
    requires
        1 <= k <= s.len(),
        digits_value(s.take(k)) is Some ==> digits_value(s.take(k))->0 > 255,
    ensures
        digits_value(s) is Some ==> digits_value(s)->0 > 255,
    decreases s.len() - k,
{
    if k < s.len() {
        assert(s.take(k + 1).drop_last() =~= s.take(k));
        if digits_value(s.take(k + 1)) is Some {
            let high = digits_value(s.take(k))->0;
            assert(high * 10 >= high) by (nonlinear_arith)
                requires
                    high >= 0,
            ;
        }
        lemma_digits_grow(s, k + 1);
    } else {
        assert(s.take(k) =~= s);
    }
}

/// The major Java version that `version` asks for, which must be one of 8
/// to 25.
pub fn parse_java_version(version: &str) -> (r: Result<u8, VenvError>)
    ensures
        match r {
            Ok(major) => java_major(version@) == Some(major) && 8 <= major <= 25,
            Err(VenvError::InvalidJavaVersion(text)) => java_major(version@) is None && text@
                == version@,
            Err(VenvError::UnsupportedJavaVersion(major)) => java_major(version@) == Some(major) && !(8
                <= major <= 25),
            Err(_) => false,
        },
{
    let parsed = if starts_with(version, "1.") {
        proof {
            reveal_strlit("1.");
        }
        let n = char_len(version);
        let minor = slice(version, 2, n);
        parse_small_number(minor.as_str())
    } else {
        let fields = split_on(version, '.');
        proof {
            lemma_split_nonempty(version@, '.');
            assert(texts(fields@)[0] == fields@[0]@);
        }
        parse_small_number(fields[0].as_str())
    };
    match parsed {
        Some(major) => {
            if major < 8 || major > 25 {
                Err(VenvError::UnsupportedJavaVersion(major))
            } else {
                Ok(major)
            }
        },
        None => Err(VenvError::InvalidJavaVersion(String::from_str(version))),
    }
}

/// One download that is on offer for a Java version.
#[derive(Debug)]
pub struct JavaRelease {
    pub os: String,
    pub architecture: String,
    pub image_type: String,
    pub package_name: String,
    pub link: String,
}

/// What a [`JavaRelease`] stands for.
pub struct JavaReleaseModel {
    pub os: Seq<char>,
    pub architecture: Seq<char>,
    pub image_type: Seq<char>,
    pub package_name: Seq<char>,
    pub link: Seq<char>,
}

impl View for JavaRelease {
    type V = JavaReleaseModel;

    open spec fn view(&self) -> JavaReleaseModel {
        JavaReleaseModel {
            os: self.os@,
            architecture: self.architecture@,
            image_type: self.image_type@,
            package_name: self.package_name@,
            link: self.link@,
        }
    }
}

impl DeepView for JavaRelease {
    type V = JavaReleaseModel;

    open spec fn deep_view(&self) -> JavaReleaseModel {
        self@
    }
}

/// Whether the release is a JDK for the system `os` on the architecture
/// `arch`, packed as the system expects: a zip archive for Windows, a
/// gzipped tar archive else.
pub open spec fn fits(release: JavaReleaseModel, arch: Seq<char>, os: Seq<char>) -> bool {
    &&& (os == "linux"@ || os == "mac"@ || os == "windows"@)
    &&& release.os == os
    &&& (arch == "x64"@ || arch == "aarch64"@ || arch == "arm"@)
    &&& release.architecture == arch
    &&& release.image_type == "jdk"@
    &&& has_suffix(
        release.package_name,
        if os == "windows"@ {
            "zip"@
        } else {
            "tar.gz"@
        },
    )
}

/// The link of the first release that fits.
pub open spec fn first_fit(releases: Seq<JavaReleaseModel>, arch: Seq<char>, os: Seq<char>) -> Option<
    Seq<char>,
>
    decreases releases.len(),
{
    if releases.len() == 0 {
        None
    } else if fits(releases[0], arch, os) {
        Some(releases[0].link)
    } else {
        first_fit(releases.drop_first(), arch, os)
    }
}

/// Whether the release fits the machine.
pub fn release_fits(release: &JavaRelease, arch: &str, os: &str) -> (r: bool)
    ensures
        r == fits(release@, arch@, os@),
{
    let os_known = str_eq(os, "linux") || str_eq(os, "mac") || str_eq(os, "windows");
    let arch_known = str_eq(arch, "x64") || str_eq(arch, "aarch64") || str_eq(arch, "arm");
    if !(os_known && arch_known) {
        return false;
    }
    if !(str_eq(release.os.as_str(), os) && str_eq(release.architecture.as_str(), arch) && str_eq(
        release.image_type.as_str(),
        "jdk",
    )) {
        return false;
    }
    if str_eq(os, "windows") {
        ends_with(release.package_name.as_str(), "zip")
    } else {
        ends_with(release.package_name.as_str(), "tar.gz")
    }
}

/// The link to download Java `major_version` for the machine: that of the
/// first of `releases` that fits.
pub fn build_java_download_url(releases: &Vec<JavaRelease>, major_version: u8, arch: &str, os: &str) -> (r:
    Result<String, VenvError>)
    ensures
        match r {
            Ok(link) => first_fit(releases.deep_view(), arch@, os@) == Some(link@),
            Err(VenvError::NoRelease(v)) => releases@.len() == 0 && v == major_version,
            Err(VenvError::NoDownload(v)) => releases@.len() > 0 && first_fit(
                releases.deep_view(),
                arch@,
                os@,
            ) is None && v == major_version,
            Err(_) => false,
        },
{
    if releases.len() == 0 {
        return Err(VenvError::NoRelease(major_version));
    }
    let ghost all = releases.deep_view();
    let mut i: usize = 0;
    assert(all.skip(0) =~= all);
    while i < releases.len()
        invariant
            i <= releases.len(),
            all == releases.deep_view(),
            first_fit(all, arch@, os@) == first_fit(all.skip(i as int), arch@, os@),
        decreases releases.len() - i,
    {
        let release = &releases[i];
        proof {
            let rest = all.skip(i as int);
            assert(rest[0] == release@);
            assert(rest.drop_first() =~= all.skip(i + 1));
        }
        if release_fits(release, arch, os) {
            return Ok(release.link.clone());
        }
        i = i + 1;
    }
    Err(VenvError::NoDownload(major_version))
}

/// What the percent-encoded text `text` stands for, where it stands for
/// UTF-8 text.
pub uninterp spec fn percent_decoded(text: Seq<char>) -> Option<Seq<char>>;

/// `urlencoding::decode`: undoes percent-encoding. `None` where the bytes
/// that come out are not UTF-8.
#[verifier::external_body]
fn percent_decode(text: &str) -> (r: Option<String>)
    ensures
        optional_text(r) == percent_decoded(text@),
{
    match urlencoding::decode(text) {
        Ok(decoded) => Some(decoded.into_owned()),
        Err(_) => None,
    }
}

/// What stands behind the last slash of `url`.
pub open spec fn last_segment(url: Seq<char>) -> Option<Seq<char>> {
    let at = last_of(url, '/');
    if at >= 0 {
        Some(url.subrange(at + 1, url.len() as int))
    } else {
        None
    }
}

/// The file name that `segment`, taken from an address, stands for.
pub fn decode_filename(segment: &str, decoded: Option<String>) -> (r: Result<String, VenvError>)
    ensures
        match r {
            Ok(name) => decoded is Some && name@ == decoded->0@,
            Err(VenvError::BadEncoding(text)) => decoded is None && text@ == segment@,
            Err(_) => false,
        },
{
    match decoded {
        Some(name) => Ok(name),
        None => Err(VenvError::BadEncoding(String::from_str(segment))),
    }
}

/// The name of the file that `url` leads to: what stands behind its last
/// slash, with percent-encoding undone.
pub fn get_java_filename_from_url(url: &str) -> (r: Result<String, VenvError>)
    ensures
        match r {
            Ok(name) => last_segment(url@) is Some && percent_decoded(last_segment(url@)->0) == Some(
                name@,
            ),
            Err(VenvError::NoFilename(text)) => last_segment(url@) is None && text@ == url@,
            Err(VenvError::BadEncoding(text)) => last_segment(url@) == Some(text@) && percent_decoded(
                text@,
            ) is None,
            Err(_) => false,
        },
{
    match rfind_char(url, '/') {
        Some(at) => {
            proof {
                lemma_last_of(url@, '/', at as int);
            }
            let n = char_len(url);
            let segment = slice(url, at + 1, n);
            let decoded = percent_decode(segment.as_str());
            decode_filename(segment.as_str(), decoded)
        },
        None => {
            proof {
                lemma_none_of(url@, '/');
            }
            Err(VenvError::NoFilename(String::from_str(url)))
        },
    }
}

/// The text of the configuration file of an environment.
pub open spec fn venv_config_spec(created: Seq<char>, java_version: Seq<char>, tool: BuildTool) -> Seq<
    char,
> {
    "# jx虚拟环境配置文件\n# 创建时间: "@ + created + "\njava_version = \""@ + java_version
        + "\"\nbuild_tool = \""@ + tool.name() + "\"\nbuild_tool_version = \""@ + tool.version()
        + "\"\n\n[paths]\nbin = \"bin\"\nlib = \"lib\"\nconf = \"conf\"\ncache = \"cache\"\n"@
}

/// The text of the configuration file of an environment that was made at
/// the time `created`.
pub fn venv_config_text(created: &str, java_version: &str, build_tool: &BuildTool) -> (r: String)
    ensures
        r@ == venv_config_spec(created@, java_version@, *build_tool),
{
    let mut text = String::from_str("# jx虚拟环境配置文件\n# 创建时间: ");
    text.append(created);
    text.append("\njava_version = \"");
    text.append(java_version);
    text.append("\"\nbuild_tool = \"");
    text.append(build_tool.tool_name());
    text.append("\"\nbuild_tool_version = \"");
    text.append(build_tool.tool_version().as_str());
    text.append("\"\n\n[paths]\nbin = \"bin\"\nlib = \"lib\"\nconf = \"conf\"\ncache = \"cache\"\n");
    text
}

} // verus!
