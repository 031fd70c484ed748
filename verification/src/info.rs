//! Words for what a project is and how it uses its dependencies.

use crate::text::str_eq;
use vstd::prelude::*;

verus! {

/// The name of the kind of a project, by the configuration files that its
/// directory holds.
pub open spec fn project_kind_spec(has_jx: bool, has_pom: bool, has_gradle: bool, has_settings: bool) -> Seq<
    char,
> {
    if has_jx {
        "jx"@
    } else if has_pom && (has_gradle || has_settings) {
        "Maven + Gradle"@
    } else if has_pom {
        "Maven"@
    } else if has_gradle || has_settings {
        "Gradle"@
    } else {
        "未知"@
    }
}

/// The name of the kind of a project: `jx` where there is a native
/// configuration; else `Maven`, `Gradle` or both by the POM, the build
/// script and the settings script; else the word for unknown.
pub fn detect_project_type(has_jx: bool, has_pom: bool, has_gradle: bool, has_settings: bool) -> (r:
    String)
    ensures
        r@ == project_kind_spec(has_jx, has_pom, has_gradle, has_settings),
{
    if has_jx {
        String::from_str("jx")
    } else if has_pom && (has_gradle || has_settings) {
        String::from_str("Maven + Gradle")
    } else if has_pom {
        String::from_str("Maven")
    } else if has_gradle || has_settings {
        String::from_str("Gradle")
    } else {
        String::from_str("未知")
    }
}

/// The label, with its icon, of a scope word.
pub open spec fn scope_icon_spec(scope: Seq<char>) -> Seq<char> {
    if scope == "compile"@ {
        "📦 编译"@
    } else if scope == "runtime"@ {
        "🔄 运行时"@
    } else if scope == "test"@ {
        "🧪 测试"@
    } else if scope == "provided"@ {
        "⚡ 提供"@
    } else if scope == "system"@ {
        "💻 系统"@
    } else if scope == "implementation"@ {
        "📦 实现"@
    } else if scope == "compileOnly"@ {
        "📝 仅编译"@
    } else if scope == "runtimeOnly"@ {
        "🔄 仅运行时"@
    } else if scope == "testImplementation"@ {
        "🧪 测试实现"@
    } else {
        "📦 其他"@
    }
}

/// The label, with its icon, of a scope word of Maven or Gradle; any other
/// word gets the label for other scopes.
pub fn get_scope_icon(scope: &str) -> (r: &'static str)
    ensures
        r@ == scope_icon_spec(scope@),
{
    if str_eq(scope, "compile") {
        "📦 编译"
    } else if str_eq(scope, "runtime") {
        "🔄 运行时"
    } else if str_eq(scope, "test") {
        "🧪 测试"
    } else if str_eq(scope, "provided") {
        "⚡ 提供"
    } else if str_eq(scope, "system") {
        "💻 系统"
    } else if str_eq(scope, "implementation") {
        "📦 实现"
    } else if str_eq(scope, "compileOnly") {
        "📝 仅编译"
    } else if str_eq(scope, "runtimeOnly") {
        "🔄 仅运行时"
    } else if str_eq(scope, "testImplementation") {
        "🧪 测试实现"
    } else {
        "📦 其他"
    }
}

/// The word for the build system of a project, by the configuration files
/// that its directory holds.
pub open spec fn build_kind_spec(has_pom: bool, has_gradle: bool, has_settings: bool) -> Seq<char> {
    if has_pom && (has_gradle || has_settings) {
        "both"@
    } else if has_pom {
        "maven"@
    } else if has_gradle || has_settings {
        "gradle"@
    } else {
        "unknown"@
    }
}

/// The word for the build system of a project: `maven`, `gradle` or `both`
/// by the POM, the build script and the settings script, else `unknown`.
pub fn detect_build_kind(has_pom: bool, has_gradle: bool, has_settings: bool) -> (r: &'static str)
    ensures
        r@ == build_kind_spec(has_pom, has_gradle, has_settings),
{
    if has_pom && (has_gradle || has_settings) {
        "both"
    } else if has_pom {
        "maven"
    } else if has_gradle || has_settings {
        "gradle"
    } else {
        "unknown"
    }
}

/// The unit in which the size of a file is shown.
#[derive(Debug, Clone, Copy, PartialEq, Eq, Structural)]
pub enum SizeUnit {
    Bytes,
    Kilobytes,
    Megabytes,
    Gigabytes,
}

impl SizeUnit {
    /// The number of bytes in one of the unit: 1024 to the power of 0, 1, 2
    /// or 3.
    pub open spec fn bytes_spec(self) -> int {
        match self {
            SizeUnit::Bytes => 1,
            SizeUnit::Kilobytes => 1024,
            SizeUnit::Megabytes => 1048576,
            SizeUnit::Gigabytes => 1073741824,
        }
    }

    /// The number of bytes in one of the unit.
    pub fn bytes(self) -> (r: u64)
        ensures
            r == self.bytes_spec(),
    {
        match self {
            SizeUnit::Bytes => 1,
            SizeUnit::Kilobytes => 1024,
            SizeUnit::Megabytes => 1048576,
            SizeUnit::Gigabytes => 1073741824,
        }
    }

    /// The letters that stand for the unit.
    pub open spec fn label_spec(self) -> Seq<char> {
        match self {
            SizeUnit::Bytes => "B"@,
            SizeUnit::Kilobytes => "KB"@,
            SizeUnit::Megabytes => "MB"@,
            SizeUnit::Gigabytes => "GB"@,
        }
    }

    /// The letters that stand for the unit.
    pub fn label(self) -> (r: &'static str)
        ensures
            r@ == self.label_spec(),
    {
        match self {
            SizeUnit::Bytes => "B",
            SizeUnit::Kilobytes => "KB",
            SizeUnit::Megabytes => "MB",
            SizeUnit::Gigabytes => "GB",
        }
    }
}

/// The unit in which a size of `size` bytes is shown: the largest, up to
/// the gigabyte, of which the size holds at least one.
pub open spec fn size_unit_spec(size: u64) -> SizeUnit {
    if size < 1024 {
        SizeUnit::Bytes
    } else if size < 1048576 {
        SizeUnit::Kilobytes
    } else if size < 1073741824 {
        SizeUnit::Megabytes
    } else {
        SizeUnit::Gigabytes
    }
}

/// The unit in which a size of `size` bytes is shown. A size under 1024
/// bytes is shown in bytes; any other in the largest unit, up to the
/// gigabyte, of which it holds at least one, so that the number shown is
/// under 1024 except in gigabytes.
pub fn size_unit(size: u64) -> (r: SizeUnit)
    ensures
        r == size_unit_spec(size),
        size > 0 ==> r.bytes_spec() <= size,
        !(r is Gigabytes) ==> size < 1024 * r.bytes_spec(),
{
    if size < 1024 {
        SizeUnit::Bytes
    } else if size < 1048576 {
        SizeUnit::Kilobytes
    } else if size < 1073741824 {
        SizeUnit::Megabytes
    } else {
        SizeUnit::Gigabytes
    }
}

} // verus!
