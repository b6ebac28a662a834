//! Whether the source of a project seems to use what is vulnerable: symbols for Cargo, imports
//! of direct dependencies for the other ecosystems. No verdict here says that something cannot
//! be reached.
use vstd::prelude::*;
use crate::cut;
use crate::cut::Class;
use crate::finding::{
    DependencyKind, Ecosystem, Occurrence, OccurrenceM, VulnFinding, VulnFindingM,
};
use crate::report::{FleetReport, FleetReportM};
use crate::text;

verus! {

// --- Text tests ---

/// Nothing of an identifier stands right before `a` or at `b`.
pub open spec fn bounded(s: Seq<char>, a: int, b: int) -> bool {
    (a == 0 || !cut::ident_char(s[a - 1])) && (b >= s.len() || !cut::ident_char(s[b]))
}

pub open spec fn word_at(hay: Seq<char>, word: Seq<char>, i: int) -> bool {
    text::occurs_at(hay, word, i) && bounded(hay, i, i + word.len())
}

/// A word that stands in the text and is no part of a longer identifier.
pub open spec fn word_in(hay: Seq<char>, word: Seq<char>) -> bool {
    word.len() > 0 && exists|i: int| #[trigger] word_at(hay, word, i)
}

/// Whether the word stands in the text and is no part of a longer identifier.
pub fn word_present(hay: &str, word: &str) -> (r: bool)
    ensures
        r == word_in(hay@, word@),
{
    let h: Vec<char> = text::chars(hay);
    let w: Vec<char> = text::chars(word);
    if w.len() == 0 {
        return false;
    }
    let mut i: usize = 0;
    while i < h.len() && w.len() <= h.len() - i
        invariant
            w.len() > 0,
            h@ == hay@,
            w@ == word@,
            i <= h.len(),
            forall|j: int| 0 <= j < i ==> !#[trigger] word_at(h@, w@, j),
        decreases h.len() - i,
    {
        if text::stands_at(&h, &w, i) {
            let end: usize = i + w.len();
            let left: bool = i == 0 || !cut::is_ident_char(h[i - 1]);
            let right: bool = end >= h.len() || !cut::is_ident_char(h[end]);
            if left && right {
                assert(word_at(h@, w@, i as int));
                return true;
            }
        }
        i += 1;
    }
    false
}

/// `-` and `_` separate the parts of a name.
pub open spec fn part_mark(c: char) -> bool {
    c == '-' || c == '_'
}

/// The parts of a name joined, each with its first letter in upper case.
pub open spec fn pascal(s: Seq<char>) -> Seq<char>
    decreases s.len(),
{
    if s.len() == 0 {
        Seq::empty()
    } else {
        let front = pascal(s.drop_last());
        if part_mark(s.last()) {
            front
        } else if s.len() == 1 || part_mark(s[s.len() - 2]) {
            front.push(text::ascii_upper_char(s.last()))
        } else {
            front.push(s.last())
        }
    }
}

/// The parts of a name joined, each with its first letter in upper case.
pub fn pascal_case(s: &str) -> (r: String)
    ensures
        r@ == pascal(s@),
{
    let v: Vec<char> = text::chars(s);
    let mut r: String = String::new();
    let mut i: usize = 0;
    assert(v@.take(0) =~= Seq::empty());
    while i < v.len()
        invariant
            i <= v.len(),
            r@ == pascal(v@.take(i as int)),
        decreases v.len() - i,
    {
        proof {
            assert(v@.take(i + 1).drop_last() =~= v@.take(i as int));
        }
        let c: char = v[i];
        if !(c == '-' || c == '_') {
            if i == 0 || v[i - 1] == '-' || v[i - 1] == '_' {
                r.push(text::upper_char(c));
            } else {
                r.push(c);
            }
        }
        i += 1;
    }
    assert(v@.take(i as int) =~= v@);
    r
}

/// A dotted path that starts with the prefix, where a part of the path ends.
pub open spec fn path_starts(path: Seq<char>, prefix: Seq<char>) -> bool {
    match cut::after_prefix(path, prefix) {
        Some(rest) => rest.len() == 0 || !cut::ident_char(rest[0]),
        None => false,
    }
}

/// Whether a dotted path starts with the prefix, where a part of the path ends.
pub fn namespace_starts_with(path: &str, prefix: &str) -> (r: bool)
    ensures
        r == path_starts(path@, prefix@),
{
    match cut::strip_prefix(path, prefix) {
        Some(rest) => {
            let v: Vec<char> = text::chars(rest.as_str());
            v.len() == 0 || !cut::is_ident_char(v[0])
        },
        None => false,
    }
}

/// The segment stands at `i`, after a backslash, a space or nothing, and ends there.
pub open spec fn segment_at(line: Seq<char>, segment: Seq<char>, i: int) -> bool {
    (i == 0 || line[i - 1] == '\\' || line[i - 1] == ' ') && (i + segment.len() >= line.len()
        || !cut::ident_char(line[i + segment.len()]))
}

/// A segment that stands somewhere in the line as a whole part. The empty one stands everywhere.
pub open spec fn segment_in(line: Seq<char>, segment: Seq<char>) -> bool {
    if segment.len() == 0 {
        exists|i: int| 0 <= i <= line.len() && #[trigger] segment_at(line, segment, i)
    } else {
        exists|k: int|
            0 <= k < cut::hits(line, segment, 0).len() && segment_at(
                line,
                segment,
                #[trigger] cut::hits(line, segment, 0)[k],
            )
    }
}

/// Whether the empty segment stands somewhere in the line as a whole part.
fn empty_segment_present(l: &Vec<char>) -> (r: bool)
    ensures
        r == segment_in(l@, Seq::empty()),
{
    let mut i: usize = 0;
    let ghost none = Seq::<char>::empty();
    while i < l.len()
        invariant
            i <= l.len(),
            none == Seq::<char>::empty(),
            forall|j: int| 0 <= j < i ==> !#[trigger] segment_at(l@, none, j),
        decreases l.len() - i,
    {
        if (i == 0 || l[i - 1] == '\\' || l[i - 1] == ' ') && !cut::is_ident_char(l[i]) {
            assert(segment_at(l@, none, i as int));
            return true;
        }
        i += 1;
    }
    let n: usize = l.len();
    let r: bool = n == 0 || l[n - 1] == '\\' || l[n - 1] == ' ';
    assert(r == segment_at(l@, none, n as int));
    r
}

/// Whether a line names the segment as a whole part of a backslash-separated path.
pub fn namespace_segment_present(line: &str, segment: &str) -> (r: bool)
    ensures
        r == segment_in(line@, segment@),
{
    let l: Vec<char> = text::chars(line);
    let s: Vec<char> = text::chars(segment);
    if s.len() == 0 {
        assert(segment@ =~= Seq::empty());
        return empty_segment_present(&l);
    }
    let at: Vec<usize> = cut::find_all(&l, &s);
    let mut k: usize = 0;
    while k < at.len()
        invariant
            k <= at.len(),
            l@ == line@,
            s@ == segment@,
            at.len() == cut::hits(line@, segment@, 0).len(),
            forall|j: int|
                0 <= j < at.len() ==> at[j] == #[trigger] cut::hits(line@, segment@, 0)[j] && at[j]
                    + s.len() <= l.len(),
            forall|j: int|
                0 <= j < k ==> !segment_at(
                    line@,
                    segment@,
                    #[trigger] cut::hits(line@, segment@, 0)[j],
                ),
        decreases at.len() - k,
    {
        assert(at[k as int] == cut::hits(line@, segment@, 0)[k as int]);
        let i: usize = at[k];
        let end: usize = i + s.len();
        let left: bool = i == 0 || l[i - 1] == '\\' || l[i - 1] == ' ';
        let right: bool = end >= l.len() || !cut::is_ident_char(l[end]);
        if left && right {
            return true;
        }
        k += 1;
    }
    false
}

/// No longer path or identifier runs into place `i`.
pub open spec fn head_at(line: Seq<char>, i: int) -> bool {
    i == 0 || (!cut::ident_char(line[i - 1]) && line[i - 1] != '.')
}

/// The module heads a dotted path in the line.
pub open spec fn qualified(line: Seq<char>, module: Seq<char>) -> bool {
    exists|k: int|
        0 <= k < cut::hits(line, module + "."@, 0).len() && head_at(
            line,
            #[trigger] cut::hits(line, module + "."@, 0)[k],
        )
}

/// Whether the module heads a dotted path in the line.
pub fn module_qualified(line: &str, module: &str) -> (r: bool)
    ensures
        r == qualified(line@, module@),
{
    let l: Vec<char> = text::chars(line);
    let needle: String = text::join(module, ".");
    let s: Vec<char> = text::chars(needle.as_str());
    proof {
        reveal_strlit(".");
    }
    let at: Vec<usize> = cut::find_all(&l, &s);
    let mut k: usize = 0;
    while k < at.len()
        invariant
            k <= at.len(),
            l@ == line@,
            s@ == module@ + "."@,
            at.len() == cut::hits(line@, s@, 0).len(),
            forall|j: int|
                0 <= j < at.len() ==> at[j] == #[trigger] cut::hits(line@, s@, 0)[j] && at[j]
                    + s.len() <= l.len(),
            forall|j: int|
                0 <= j < k ==> !head_at(line@, #[trigger] cut::hits(line@, s@, 0)[j]),
            s.len() > 0,
        decreases at.len() - k,
    {
        assert(at[k as int] == cut::hits(line@, s@, 0)[k as int]);
        let i: usize = at[k];
        if i == 0 || (!cut::is_ident_char(l[i - 1]) && l[i - 1] != '.') {
            return true;
        }
        k += 1;
    }
    false
}

/// The line holds the name in quotes, whole or as the first part of a path.
pub open spec fn names_module(line: Seq<char>, pkg: Seq<char>) -> bool {
    ||| text::occurs(line, "'"@ + pkg + "'"@)
    ||| text::occurs(line, "\""@ + pkg + "\""@)
    ||| text::occurs(line, "'"@ + pkg + "/"@)
    ||| text::occurs(line, "\""@ + pkg + "/"@)
}

fn holds_between(line: &str, a: &str, pkg: &str, b: &str) -> (r: bool)
    ensures
        r == text::occurs(line@, a@ + pkg@ + b@),
{
    let mut s: String = text::join(a, pkg);
    s.append(b);
    text::contains(line, s.as_str())
}

fn line_names_module(line: &str, pkg: &str) -> (r: bool)
    ensures
        r == names_module(line@, pkg@),
{
    holds_between(line, "'", pkg, "'") || holds_between(line, "\"", pkg, "\"") || holds_between(
        line,
        "'",
        pkg,
        "/",
    ) || holds_between(line, "\"", pkg, "/")
}

/// `-` and `.` become `_`.
pub open spec fn underscored_char(c: char) -> char {
    if c == '-' || c == '.' {
        '_'
    } else {
        c
    }
}

pub open spec fn underscored(s: Seq<char>) -> Seq<char> {
    Seq::new(s.len(), |i: int| underscored_char(s[i]))
}

fn underscore(s: &str) -> (r: String)
    ensures
        r@ == underscored(s@),
{
    let v: Vec<char> = text::chars(s);
    let mut r: String = String::new();
    let mut i: usize = 0;
    while i < v.len()
        invariant
            i <= v.len(),
            v@ == s@,
            r@ =~= underscored(s@).take(i as int),
        decreases v.len() - i,
    {
        let c: char = v[i];
        r.push(
            if c == '-' || c == '.' {
                '_'
            } else {
                c
            },
        );
        i += 1;
    }
    assert(r@ =~= underscored(s@));
    r
}

/// The text without its hyphens.
pub open spec fn unhyphened(s: Seq<char>) -> Seq<char>
    decreases s.len(),
{
    if s.len() == 0 {
        Seq::empty()
    } else if s.last() == '-' {
        unhyphened(s.drop_last())
    } else {
        unhyphened(s.drop_last()).push(s.last())
    }
}

fn unhyphen(s: &str) -> (r: String)
    ensures
        r@ == unhyphened(s@),
{
    let v: Vec<char> = text::chars(s);
    let mut r: String = String::new();
    let mut i: usize = 0;
    assert(v@.take(0) =~= Seq::empty());
    while i < v.len()
        invariant
            i <= v.len(),
            v@ == s@,
            r@ == unhyphened(s@.take(i as int)),
        decreases v.len() - i,
    {
        assert(s@.take(i + 1).drop_last() =~= s@.take(i as int));
        if v[i] != '-' {
            r.push(v[i]);
        }
        i += 1;
    }
    assert(s@.take(i as int) =~= s@);
    r
}

// --- Imports ---

/// How source text imports a package.
#[derive(Debug, Clone, Copy, PartialEq, Eq, Structural)]
pub enum Style {
    Npm,
    Julia,
    RubyGems,
    Pypi,
    NuGet,
    Maven,
    Packagist,
    Swift,
    Hex,
    GitHubActions,
}

/// The start of a line after its indent.
pub open spec fn unindented(line: Seq<char>) -> Seq<char> {
    cut::without_start(line, Class::White)
}

pub open spec fn starts(s: Seq<char>, p: Seq<char>) -> bool {
    text::occurs_at(s, p, 0)
}

pub open spec fn npm_line(line: Seq<char>, pkg: Seq<char>) -> bool {
    (text::occurs(line, "require"@) || text::occurs(line, "import"@) || text::occurs(line, "from"@))
        && names_module(line, pkg)
}

pub open spec fn julia_line(line: Seq<char>, pkg: Seq<char>) -> bool {
    (starts(unindented(line), "using "@) || starts(unindented(line), "import "@)) && word_in(
        line,
        pkg,
    )
}

pub open spec fn rubygems_line(line: Seq<char>, pkg: Seq<char>) -> bool {
    text::occurs(line, "require"@) && names_module(line, pkg)
}

pub open spec fn pypi_line(line: Seq<char>, pkg: Seq<char>) -> bool {
    (starts(unindented(line), "import "@) || starts(unindented(line), "from "@)) && (word_in(
        line,
        underscored(text::ascii_lower(pkg)),
    ) || word_in(line, text::ascii_lower(pkg)))
}

pub open spec fn nuget_line(line: Seq<char>, pkg: Seq<char>) -> bool {
    let rest = match cut::after_prefix(unindented(line), "using "@) {
        Some(r) => Some(r),
        None => cut::after_prefix(unindented(line), "global using "@),
    };
    match rest {
        Some(r) => path_starts(unindented(r), pkg),
        None => false,
    }
}

pub open spec fn maven_line(line: Seq<char>, pkg: Seq<char>) -> bool {
    match cut::halves(pkg, ":"@) {
        Some((group, _)) => group.len() > 0 && match cut::after_prefix(
            unindented(line),
            "import "@,
        ) {
            Some(r) => path_starts(
                unindented(
                    match cut::after_prefix(r, "static "@) {
                        Some(s) => s,
                        None => r,
                    },
                ),
                group,
            ),
            None => false,
        },
        None => false,
    }
}

pub open spec fn packagist_line(line: Seq<char>, pkg: Seq<char>) -> bool {
    starts(unindented(line), "use "@) && exists|k: int|
        0 <= k < text::split_on(pkg, '/').len() && packagist_part(
            unindented(line),
            #[trigger] text::split_on(pkg, '/')[k],
        )
}

pub open spec fn packagist_part(line: Seq<char>, part: Seq<char>) -> bool {
    pascal(part).len() > 0 && segment_in(line, pascal(part))
}

/// The last part of an identity, without what marks it as a Swift package.
pub open spec fn swift_stem(id: Seq<char>) -> Seq<char> {
    match cut::after_prefix(id, "swift-"@) {
        Some(s) => s,
        None => match cut::after_prefix(id, "Swift"@) {
            Some(s) => s,
            None => id,
        },
    }
}

pub open spec fn same_folded(a: Seq<char>, b: Seq<char>) -> bool {
    b.len() > 0 && text::ascii_lower(a) == text::ascii_lower(b)
}

pub open spec fn swift_line(line: Seq<char>, pkg: Seq<char>) -> bool {
    match cut::after_prefix(unindented(line), "import "@) {
        Some(m) => {
            let id = cut::after_last_mark(pkg, "/"@);
            same_folded(cut::trimmed(m), id) || same_folded(
                cut::trimmed(m),
                unhyphened(swift_stem(id)),
            )
        },
        None => false,
    }
}

pub open spec fn hex_line(line: Seq<char>, pkg: Seq<char>) -> bool {
    let t = unindented(line);
    let module = pascal(pkg);
    module.len() > 0 && (((starts(t, "alias "@) || starts(t, "import "@) || starts(t, "use "@)
        || starts(t, "require "@)) && word_in(t, module)) || qualified(line, module))
}

pub open spec fn ghactions_line(line: Seq<char>, pkg: Seq<char>) -> bool {
    text::occurs(text::ascii_lower(line), "uses:"@) && text::occurs(
        text::ascii_lower(line),
        pkg + "@"@,
    )
}

/// Whether a line imports the package.
pub open spec fn line_imports(k: Style, line: Seq<char>, pkg: Seq<char>) -> bool {
    match k {
        Style::Npm => npm_line(line, pkg),
        Style::Julia => julia_line(line, pkg),
        Style::RubyGems => rubygems_line(line, pkg),
        Style::Pypi => pypi_line(line, pkg),
        Style::NuGet => nuget_line(line, pkg),
        Style::Maven => maven_line(line, pkg),
        Style::Packagist => packagist_line(line, pkg),
        Style::Swift => swift_line(line, pkg),
        Style::Hex => hex_line(line, pkg),
        Style::GitHubActions => ghactions_line(line, pkg),
    }
}

/// Whether some line of a text imports the package.
pub open spec fn text_imports(k: Style, t: Seq<char>, pkg: Seq<char>) -> bool {
    exists|i: int|
        0 <= i < cut::lines_of(t).len() && line_imports(k, #[trigger] cut::lines_of(t)[i], pkg)
}

fn in_packagist_line(line: &str, pkg: &str) -> (r: bool)
    ensures
        r == packagist_line(line@, pkg@),
{
    let t: String = cut::trim_start(line, Class::White);
    if !cut::starts_with(t.as_str(), "use ") {
        return false;
    }
    let parts: Vec<String> = cut::split(pkg, '/');
    let ghost all = parts.deep_view();
    let mut k: usize = 0;
    while k < parts.len()
        invariant
            k <= parts.len(),
            all == parts.deep_view(),
            all == text::split_on(pkg@, '/'),
            t@ == unindented(line@),
            starts(t@, "use "@),
            forall|j: int|
                0 <= j < k ==> !packagist_part(t@, #[trigger] text::split_on(pkg@, '/')[j]),
        decreases parts.len() - k,
    {
        assert(parts[k as int]@ == text::split_on(pkg@, '/')[k as int]);
        let c: String = pascal_case(parts[k].as_str());
        if !c.as_str().is_empty() && namespace_segment_present(t.as_str(), c.as_str()) {
            return true;
        }
        k += 1;
    }
    assert(all.len() == parts.len());
    false
}

fn in_maven_line(line: &str, pkg: &str) -> (r: bool)
    ensures
        r == maven_line(line@, pkg@),
{
    match cut::split_once(pkg, ":") {
        Some((group, _)) => {
            if group.as_str().is_empty() {
                return false;
            }
            let t: String = cut::trim_start(line, Class::White);
            match cut::strip_prefix(t.as_str(), "import ") {
                Some(r) => {
                    let s: String = match cut::strip_prefix(r.as_str(), "static ") {
                        Some(x) => x,
                        None => r,
                    };
                    let path: String = cut::trim_start(s.as_str(), Class::White);
                    namespace_starts_with(path.as_str(), group.as_str())
                },
                None => false,
            }
        },
        None => false,
    }
}

fn is_folded(a: &str, b: &str) -> (r: bool)
    ensures
        r == same_folded(a@, b@),
{
    !b.is_empty() && text::to_lower(a) == text::to_lower(b)
}

fn in_swift_line(line: &str, pkg: &str) -> (r: bool)
    ensures
        r == swift_line(line@, pkg@),
{
    let t: String = cut::trim_start(line, Class::White);
    match cut::strip_prefix(t.as_str(), "import ") {
        Some(m) => {
            let name: String = cut::trim(m.as_str());
            let id: String = cut::after_last(pkg, "/");
            let stem: String = match cut::strip_prefix(id.as_str(), "swift-") {
                Some(s) => s,
                None => match cut::strip_prefix(id.as_str(), "Swift") {
                    Some(s) => s,
                    None => id.clone(),
                },
            };
            let short: String = unhyphen(stem.as_str());
            is_folded(name.as_str(), id.as_str()) || is_folded(name.as_str(), short.as_str())
        },
        None => false,
    }
}

fn in_hex_line(line: &str, pkg: &str) -> (r: bool)
    ensures
        r == hex_line(line@, pkg@),
{
    let module: String = pascal_case(pkg);
    if module.as_str().is_empty() {
        return false;
    }
    let t: String = cut::trim_start(line, Class::White);
    let directive: bool = (cut::starts_with(t.as_str(), "alias ") || cut::starts_with(
        t.as_str(),
        "import ",
    ) || cut::starts_with(t.as_str(), "use ") || cut::starts_with(t.as_str(), "require "))
        && word_present(t.as_str(), module.as_str());
    directive || module_qualified(line, module.as_str())
}

fn in_nuget_line(line: &str, pkg: &str) -> (r: bool)
    ensures
        r == nuget_line(line@, pkg@),
{
    let t: String = cut::trim_start(line, Class::White);
    let rest: Option<String> = match cut::strip_prefix(t.as_str(), "using ") {
        Some(r) => Some(r),
        None => cut::strip_prefix(t.as_str(), "global using "),
    };
    match rest {
        Some(r) => {
            let path: String = cut::trim_start(r.as_str(), Class::White);
            namespace_starts_with(path.as_str(), pkg)
        },
        None => false,
    }
}

/// Whether a line imports the package.
pub fn imports_line(k: Style, line: &str, pkg: &str) -> (r: bool)
    ensures
        r == line_imports(k, line@, pkg@),
{
    match k {
        Style::Npm => (text::contains(line, "require") || text::contains(line, "import")
            || text::contains(line, "from")) && line_names_module(line, pkg),
        Style::Julia => {
            let t: String = cut::trim_start(line, Class::White);
            (cut::starts_with(t.as_str(), "using ") || cut::starts_with(t.as_str(), "import "))
                && word_present(line, pkg)
        },
        Style::RubyGems => text::contains(line, "require") && line_names_module(line, pkg),
        Style::Pypi => {
            let t: String = cut::trim_start(line, Class::White);
            let lower: String = text::to_lower(pkg);
            let module: String = underscore(lower.as_str());
            (cut::starts_with(t.as_str(), "import ") || cut::starts_with(t.as_str(), "from ")) && (
            word_present(line, module.as_str()) || word_present(line, lower.as_str()))
        },
        Style::NuGet => in_nuget_line(line, pkg),
        Style::Maven => in_maven_line(line, pkg),
        Style::Packagist => in_packagist_line(line, pkg),
        Style::Swift => in_swift_line(line, pkg),
        Style::Hex => in_hex_line(line, pkg),
        Style::GitHubActions => {
            let low: String = text::to_lower(line);
            let needle: String = text::join(pkg, "@");
            text::contains(low.as_str(), "uses:") && text::contains(low.as_str(), needle.as_str())
        },
    }
}

/// Whether some line of a text imports the package.
pub fn imports_text(k: Style, t: &str, pkg: &str) -> (r: bool)
    ensures
        r == text_imports(k, t@, pkg@),
{
    let lines: Vec<String> = cut::lines(t);
    let ghost all = lines.deep_view();
    let mut i: usize = 0;
    while i < lines.len()
        invariant
            i <= lines.len(),
            all == lines.deep_view(),
            all == cut::lines_of(t@),
            forall|j: int| 0 <= j < i ==> !line_imports(k, #[trigger] cut::lines_of(t@)[j], pkg@),
        decreases lines.len() - i,
    {
        assert(lines[i as int]@ == cut::lines_of(t@)[i as int]);
        if imports_line(k, lines[i].as_str(), pkg) {
            return true;
        }
        i += 1;
    }
    assert(all.len() == lines.len());
    false
}

/// Whether JavaScript text requires or imports the package or a path inside it.
pub fn npm_imports_text(t: &str, pkg: &str) -> (r: bool)
    ensures
        r == text_imports(Style::Npm, t@, pkg@),
{
    imports_text(Style::Npm, t, pkg)
}

/// Whether Julia text has a `using` or `import` line that names the package.
pub fn julia_imports_text(t: &str, pkg: &str) -> (r: bool)
    ensures
        r == text_imports(Style::Julia, t@, pkg@),
{
    imports_text(Style::Julia, t, pkg)
}

/// Whether Ruby text requires the gem or a path inside it.
pub fn rubygems_imports_text(t: &str, pkg: &str) -> (r: bool)
    ensures
        r == text_imports(Style::RubyGems, t@, pkg@),
{
    imports_text(Style::RubyGems, t, pkg)
}

/// Whether Python text imports the module that the distribution is likely named after.
pub fn pypi_imports_text(t: &str, pkg: &str) -> (r: bool)
    ensures
        r == text_imports(Style::Pypi, t@, pkg@),
{
    imports_text(Style::Pypi, t, pkg)
}

/// Whether .NET text uses the namespace that the package is named after.
pub fn nuget_imports_text(t: &str, pkg: &str) -> (r: bool)
    ensures
        r == text_imports(Style::NuGet, t@, pkg@),
{
    imports_text(Style::NuGet, t, pkg)
}

/// Whether Java text imports from the group of the coordinate.
pub fn maven_imports_text(t: &str, pkg: &str) -> (r: bool)
    ensures
        r == text_imports(Style::Maven, t@, pkg@),
{
    imports_text(Style::Maven, t, pkg)
}

/// Whether PHP text uses a namespace named after a part of the package.
pub fn packagist_imports_text(t: &str, pkg: &str) -> (r: bool)
    ensures
        r == text_imports(Style::Packagist, t@, pkg@),
{
    imports_text(Style::Packagist, t, pkg)
}

/// Whether Swift text imports the module that the repository is likely named after.
pub fn swift_imports_text(t: &str, pkg: &str) -> (r: bool)
    ensures
        r == text_imports(Style::Swift, t@, pkg@),
{
    imports_text(Style::Swift, t, pkg)
}

/// Whether Elixir text names or calls the module of the package.
pub fn hex_module_used_text(t: &str, pkg: &str) -> (r: bool)
    ensures
        r == text_imports(Style::Hex, t@, pkg@),
{
    imports_text(Style::Hex, t, pkg)
}

/// Whether a workflow uses the action.
pub fn ghactions_uses_text(t: &str, pkg: &str) -> (r: bool)
    ensures
        r == text_imports(Style::GitHubActions, t@, pkg@),
{
    imports_text(Style::GitHubActions, t, pkg)
}

/// How imports are looked for in an ecosystem; Cargo and Go are judged in other ways.
pub open spec fn style_of(e: Ecosystem) -> Option<Style> {
    match e {
        Ecosystem::Npm => Some(Style::Npm),
        Ecosystem::Julia => Some(Style::Julia),
        Ecosystem::RubyGems => Some(Style::RubyGems),
        Ecosystem::Pypi => Some(Style::Pypi),
        Ecosystem::NuGet => Some(Style::NuGet),
        Ecosystem::Maven => Some(Style::Maven),
        Ecosystem::Packagist => Some(Style::Packagist),
        Ecosystem::Swift => Some(Style::Swift),
        Ecosystem::Hex => Some(Style::Hex),
        Ecosystem::GitHubActions => Some(Style::GitHubActions),
        Ecosystem::Cargo | Ecosystem::Go => None,
    }
}

/// How imports are looked for in an ecosystem.
pub fn import_scanner(e: Ecosystem) -> (r: Option<Style>)
    ensures
        r == style_of(e),
{
    match e {
        Ecosystem::Npm => Some(Style::Npm),
        Ecosystem::Julia => Some(Style::Julia),
        Ecosystem::RubyGems => Some(Style::RubyGems),
        Ecosystem::Pypi => Some(Style::Pypi),
        Ecosystem::NuGet => Some(Style::NuGet),
        Ecosystem::Maven => Some(Style::Maven),
        Ecosystem::Packagist => Some(Style::Packagist),
        Ecosystem::Swift => Some(Style::Swift),
        Ecosystem::Hex => Some(Style::Hex),
        Ecosystem::GitHubActions => Some(Style::GitHubActions),
        Ecosystem::Cargo | Ecosystem::Go => None,
    }
}

/// Whether files with the extension hold source of the style.
pub open spec fn style_extension(k: Style, e: Seq<char>) -> bool {
    match k {
        Style::Npm => e == "js"@ || e == "mjs"@ || e == "cjs"@ || e == "ts"@ || e == "tsx"@ || e
            == "jsx"@,
        Style::Julia => e == "jl"@,
        Style::RubyGems => e == "rb"@ || e == "rake"@,
        Style::Pypi => e == "py"@,
        Style::NuGet => e == "cs"@ || e == "fs"@ || e == "vb"@,
        Style::Maven => e == "java"@ || e == "kt"@ || e == "scala"@ || e == "groovy"@,
        Style::Packagist => e == "php"@,
        Style::Swift => e == "swift"@,
        Style::Hex => e == "ex"@ || e == "exs"@,
        Style::GitHubActions => e == "yml"@ || e == "yaml"@,
    }
}

/// Whether files with the extension hold source of the style.
pub fn is_style_extension(k: Style, e: &str) -> (r: bool)
    ensures
        r == style_extension(k, e@),
{
    match k {
        Style::Npm => text::same(e, "js") || text::same(e, "mjs") || text::same(e, "cjs")
            || text::same(e, "ts") || text::same(e, "tsx") || text::same(e, "jsx"),
        Style::Julia => text::same(e, "jl"),
        Style::RubyGems => text::same(e, "rb") || text::same(e, "rake"),
        Style::Pypi => text::same(e, "py"),
        Style::NuGet => text::same(e, "cs") || text::same(e, "fs") || text::same(e, "vb"),
        Style::Maven => text::same(e, "java") || text::same(e, "kt") || text::same(e, "scala")
            || text::same(e, "groovy"),
        Style::Packagist => text::same(e, "php"),
        Style::Swift => text::same(e, "swift"),
        Style::Hex => text::same(e, "ex") || text::same(e, "exs"),
        Style::GitHubActions => text::same(e, "yml") || text::same(e, "yaml"),
    }
}

// --- Source files ---

/// What a [`SourceFile`] stands for.
#[verifier::ext_equal]
pub struct SourceFileM {
    pub name: Seq<char>,
    pub text: Seq<char>,
}

/// A file of a project that could be read as text.
#[derive(Debug, PartialEq)]
pub struct SourceFile {
    /// The last part of its path.
    pub name: String,
    pub text: String,
}

impl DeepView for SourceFile {
    type V = SourceFileM;

    open spec fn deep_view(&self) -> SourceFileM {
        SourceFileM {
            name: self.name@,
            text: self.text@,
        }
    }
}

/// What a [`RepoSource`] stands for.
#[verifier::ext_equal]
pub struct RepoSourceM {
    pub repo: Seq<char>,
    pub files: Seq<SourceFileM>,
}

/// The files of a repository that are its own: none of a vendored or built tree.
#[derive(Debug, PartialEq)]
pub struct RepoSource {
    pub repo: String,
    pub files: Vec<SourceFile>,
}

impl DeepView for RepoSource {
    type V = RepoSourceM;

    open spec fn deep_view(&self) -> RepoSourceM {
        RepoSourceM {
            repo: self.repo@,
            files: self.files.deep_view(),
        }
    }
}

/// The extension of a file name: what follows its last full stop, where something stands
/// before it.
pub open spec fn extension_of(name: Seq<char>) -> Option<Seq<char>> {
    match cut::last_place(name, "."@) {
        Some(i) => if i > 0 && name != ".."@ {
            Some(name.skip(i + 1))
        } else {
            None
        },
        None => None,
    }
}

/// The extension of a file name.
pub fn extension(name: &str) -> (r: Option<String>)
    ensures
        r.deep_view() == extension_of(name@),
{
    proof {
        reveal_strlit(".");
    }
    let v: Vec<char> = text::chars(name);
    let dot: Vec<char> = text::chars(".");
    match cut::find_last(&v, &dot) {
        Some(i) => if i > 0 && !text::same(name, "..") {
            assert(v@.skip(i + 1) =~= v@.subrange(i + 1, v@.len() as int));
            Some(text::text_of(&v, i + 1, v.len()))
        } else {
            None
        },
        None => None,
    }
}

/// Names of directories and files that a search of the source passes over.
pub open spec fn passed_over(name: Seq<char>) -> bool {
    name == "target"@ || name == "node_modules"@ || name == "vendor"@ || name == ".git"@ || name
        == "dist"@ || name == "build"@
}

/// Whether a search of the source passes over a directory or file of this name.
pub fn is_passed_over(name: &str) -> (r: bool)
    ensures
        r == passed_over(name@),
{
    text::same(name, "target") || text::same(name, "node_modules") || text::same(name, "vendor")
        || text::same(name, ".git") || text::same(name, "dist") || text::same(name, "build")
}

/// The source of a repository, where it is known.
pub open spec fn source_of(sources: Seq<RepoSourceM>, repo: Seq<char>) -> Option<Seq<SourceFileM>>
    decreases sources.len(),
{
    if sources.len() == 0 {
        None
    } else {
        match source_of(sources.drop_last(), repo) {
            Some(f) => Some(f),
            None => if sources.last().repo == repo {
                Some(sources.last().files)
            } else {
                None
            },
        }
    }
}

proof fn lemma_source_stays(sources: Seq<RepoSourceM>, n: int, repo: Seq<char>)
    requires
        0 <= n <= sources.len(),
        source_of(sources.take(n), repo) is Some,
    ensures
        source_of(sources, repo) == source_of(sources.take(n), repo),
    decreases sources.len(),
{
    if n < sources.len() {
        assert(sources.drop_last().take(n) =~= sources.take(n));
        lemma_source_stays(sources.drop_last(), n, repo);
    } else {
        assert(sources.take(n) =~= sources);
    }
}

fn find_source<'a>(sources: &'a Vec<RepoSource>, repo: &str) -> (r: Option<&'a Vec<SourceFile>>)
    ensures
        match r {
            Some(f) => source_of(sources.deep_view(), repo@) == Some(f.deep_view()),
            None => source_of(sources.deep_view(), repo@) is None,
        },
{
    let ghost all = sources.deep_view();
    let mut i: usize = 0;
    assert(all.take(0) =~= Seq::empty());
    while i < sources.len()
        invariant
            i <= sources.len(),
            all == sources.deep_view(),
            source_of(all.take(i as int), repo@) is None,
        decreases sources.len() - i,
    {
        assert(all.take(i + 1).drop_last() =~= all.take(i as int));
        if text::same(sources[i].repo.as_str(), repo) {
            proof {
                lemma_source_stays(all, i + 1, repo@);
            }
            return Some(&sources[i].files);
        }
        i += 1;
    }
    assert(all.take(i as int) =~= all);
    None
}

// --- Cargo ---

/// The name called, got by method or by path.
pub open spec fn mention(t: Seq<char>, name: Seq<char>) -> bool {
    text::occurs(t, name + "("@) || text::occurs(t, "."@ + name) || text::occurs(t, "::"@ + name)
}

/// Whether the text calls the name, or gets it by method or by path.
pub fn mentions(t: &str, name: &str) -> (r: bool)
    ensures
        r == mention(t@, name@),
{
    let call: String = text::join(name, "(");
    let method: String = text::join(".", name);
    let path: String = text::join("::", name);
    text::contains(t, call.as_str()) || text::contains(t, method.as_str()) || text::contains(
        t,
        path.as_str(),
    )
}

/// The last part of a function's path.
pub open spec fn short_name(path: Seq<char>) -> Seq<char> {
    cut::after_last_mark(path, "::"@)
}

pub open spec fn mentions_any(t: Seq<char>, paths: Seq<Seq<char>>) -> bool {
    exists|i: int| 0 <= i < paths.len() && mention(t, short_name(#[trigger] paths[i]))
}

pub open spec fn rust_file(f: SourceFileM) -> bool {
    extension_of(f.name) == Some("rs"@)
}

pub open spec fn source_mentions(files: Seq<SourceFileM>, paths: Seq<Seq<char>>) -> bool {
    exists|i: int|
        0 <= i < files.len() && rust_file(#[trigger] files[i]) && mentions_any(files[i].text, paths)
}

fn text_mentions_any(t: &str, paths: &Vec<String>) -> (r: bool)
    ensures
        r == mentions_any(t@, paths.deep_view()),
{
    let ghost all = paths.deep_view();
    let mut i: usize = 0;
    while i < paths.len()
        invariant
            i <= paths.len(),
            all == paths.deep_view(),
            forall|j: int| 0 <= j < i ==> !mention(t@, short_name(#[trigger] all[j])),
        decreases paths.len() - i,
    {
        assert(paths[i as int]@ == all[i as int]);
        let name: String = cut::after_last(paths[i].as_str(), "::");
        if mentions(t, name.as_str()) {
            return true;
        }
        i += 1;
    }
    false
}

/// Whether some Rust file mentions one of the functions by its short name.
pub fn source_mentions_symbol(files: &Vec<SourceFile>, paths: &Vec<String>) -> (r: bool)
    ensures
        r == source_mentions(files.deep_view(), paths.deep_view()),
{
    let ghost all = files.deep_view();
    let mut i: usize = 0;
    while i < files.len()
        invariant
            i <= files.len(),
            all == files.deep_view(),
            forall|j: int|
                0 <= j < i ==> !(rust_file(#[trigger] all[j]) && mentions_any(
                    all[j].text,
                    paths.deep_view(),
                )),
        decreases files.len() - i,
    {
        assert(files[i as int].deep_view() == all[i as int]);
        let e: Option<String> = extension(files[i].name.as_str());
        if text::is_text(&e, "rs") && text_mentions_any(files[i].text.as_str(), paths) {
            return true;
        }
        i += 1;
    }
    false
}

pub open spec fn mentioned_at(
    o: OccurrenceM,
    paths: Seq<Seq<char>>,
    sources: Seq<RepoSourceM>,
) -> bool {
    match o {
        OccurrenceM::InRepo { repo, .. } => match source_of(sources, repo) {
            Some(files) => source_mentions(files, paths),
            None => false,
        },
        OccurrenceM::Toolchain { .. } => false,
    }
}

pub open spec fn mentioned(f: VulnFindingM, sources: Seq<RepoSourceM>) -> bool {
    exists|i: int|
        0 <= i < f.occurrences.len() && mentioned_at(
            #[trigger] f.occurrences[i],
            f.affected_functions,
            sources,
        )
}

fn is_mentioned(f: &VulnFinding, sources: &Vec<RepoSource>) -> (r: bool)
    ensures
        r == mentioned(f.deep_view(), sources.deep_view()),
{
    let ghost all = f.deep_view().occurrences;
    let mut i: usize = 0;
    while i < f.occurrences.len()
        invariant
            i <= f.occurrences.len(),
            all == f.occurrences.deep_view(),
            all == f.deep_view().occurrences,
            forall|j: int|
                0 <= j < i ==> !mentioned_at(
                    #[trigger] all[j],
                    f.affected_functions.deep_view(),
                    sources.deep_view(),
                ),
        decreases f.occurrences.len() - i,
    {
        assert(f.occurrences[i as int].deep_view() == all[i as int]);
        if let Occurrence::InRepo { repo, .. } = &f.occurrences[i] {
            if let Some(files) = find_source(sources, repo.0.as_str()) {
                if source_mentions_symbol(files, &f.affected_functions) {
                    return true;
                }
            }
        }
        i += 1;
    }
    false
}

// --- The other ecosystems ---

pub open spec fn style_file(k: Style, f: SourceFileM) -> bool {
    match extension_of(f.name) {
        Some(e) => style_extension(k, e),
        None => false,
    }
}

pub open spec fn source_imports(k: Style, files: Seq<SourceFileM>, pkg: Seq<char>) -> bool {
    exists|i: int|
        0 <= i < files.len() && style_file(k, #[trigger] files[i]) && text_imports(
            k,
            files[i].text,
            pkg,
        )
}

fn source_has_import(k: Style, files: &Vec<SourceFile>, pkg: &str) -> (r: bool)
    ensures
        r == source_imports(k, files.deep_view(), pkg@),
{
    let ghost all = files.deep_view();
    let mut i: usize = 0;
    while i < files.len()
        invariant
            i <= files.len(),
            all == files.deep_view(),
            forall|j: int|
                0 <= j < i ==> !(style_file(k, #[trigger] all[j]) && text_imports(
                    k,
                    all[j].text,
                    pkg@,
                )),
        decreases files.len() - i,
    {
        assert(files[i as int].deep_view() == all[i as int]);
        if let Some(e) = extension(files[i].name.as_str()) {
            if is_style_extension(k, e.as_str()) && imports_text(k, files[i].text.as_str(), pkg) {
                return true;
            }
        }
        i += 1;
    }
    false
}

/// A direct dependency that the source of its repository imports.
pub open spec fn imported_at(k: Style, o: OccurrenceM, sources: Seq<RepoSourceM>) -> bool {
    match o {
        OccurrenceM::InRepo { repo, package, dependency_kind, .. } => dependency_kind
            == DependencyKind::Direct && match source_of(sources, repo) {
            Some(files) => source_imports(k, files, package),
            None => false,
        },
        OccurrenceM::Toolchain { .. } => false,
    }
}

pub open spec fn imported(k: Style, f: VulnFindingM, sources: Seq<RepoSourceM>) -> bool {
    exists|i: int|
        0 <= i < f.occurrences.len() && imported_at(k, #[trigger] f.occurrences[i], sources)
}

fn is_imported(k: Style, f: &VulnFinding, sources: &Vec<RepoSource>) -> (r: bool)
    ensures
        r == imported(k, f.deep_view(), sources.deep_view()),
{
    let ghost all = f.deep_view().occurrences;
    let mut i: usize = 0;
    while i < f.occurrences.len()
        invariant
            i <= f.occurrences.len(),
            all == f.occurrences.deep_view(),
            all == f.deep_view().occurrences,
            forall|j: int|
                0 <= j < i ==> !imported_at(k, #[trigger] all[j], sources.deep_view()),
        decreases f.occurrences.len() - i,
    {
        assert(f.occurrences[i as int].deep_view() == all[i as int]);
        if let Occurrence::InRepo { repo, package, dependency_kind, .. } = &f.occurrences[i] {
            if *dependency_kind == DependencyKind::Direct {
                if let Some(files) = find_source(sources, repo.0.as_str()) {
                    if source_has_import(k, files, package.as_str()) {
                        return true;
                    }
                }
            }
        }
        i += 1;
    }
    false
}

// --- Assessment ---

/// A finding as judged from the source: for Cargo whether an affected function is mentioned,
/// where the advisory names any; for the other ecosystems only ever a hit.
pub open spec fn assessed(f: VulnFindingM, sources: Seq<RepoSourceM>) -> VulnFindingM {
    if f.ecosystem == Ecosystem::Cargo {
        if f.affected_functions.len() == 0 {
            f
        } else {
            VulnFindingM { reachable: Some(mentioned(f, sources)), ..f }
        }
    } else {
        match style_of(f.ecosystem) {
            Some(k) => if imported(k, f, sources) {
                VulnFindingM { reachable: Some(true), ..f }
            } else {
                f
            },
            None => f,
        }
    }
}

/// Judges each vulnerability from the source of the repositories.
pub fn assess(report: &mut FleetReport, sources: &Vec<RepoSource>)
    ensures
        final(report).deep_view() == (FleetReportM {
            vulnerabilities: old(report).deep_view().vulnerabilities.map_values(
                |f: VulnFindingM| assessed(f, sources.deep_view()),
            ),
            ..old(report).deep_view()
        }),
{
    let ghost all = report.vulnerabilities.deep_view();
    let ghost want = all.map_values(|f: VulnFindingM| assessed(f, sources.deep_view()));
    let mut vulns: Vec<VulnFinding> = Vec::new();
    std::mem::swap(&mut vulns, &mut report.vulnerabilities);
    let mut out: Vec<VulnFinding> = Vec::new();
    let ghost mut n: int = 0;
    assert(out.deep_view() =~= want.take(0));
    for v in it: vulns
        invariant
            it.seq() == vulns@,
            all == vulns.deep_view(),
            want == all.map_values(|f: VulnFindingM| assessed(f, sources.deep_view())),
            n == it.index(),
            n <= all.len(),
            out.deep_view() == want.take(n),
    {
        let ghost before = out.deep_view();
        let ghost was = v.deep_view();
        let mut f: VulnFinding = v;
        if f.ecosystem.is_cargo() {
            if f.affected_functions.len() > 0 {
                let found: bool = is_mentioned(&f, sources);
                f.reachable = Some(found);
            }
        } else if let Some(k) = import_scanner(f.ecosystem) {
            if is_imported(k, &f, sources) {
                f.reachable = Some(true);
            }
        }
        proof {
            assert(was.affected_functions.len() == v.affected_functions.len());
            assert(f.deep_view() == assessed(was, sources.deep_view()));
            assert(all[n] == was);
        }
        out.push(f);
        proof {
            assert(out.deep_view() =~= before.push(f.deep_view()));
            assert(want.take(n + 1) =~= want.take(n).push(want[n]));
            n = n + 1;
        }
    }
    assert(want.take(n) =~= want);
    report.vulnerabilities = out;
}

/// Outside Cargo the source never shows that something is not used: a finding that was not
/// judged so before is not judged so after.
pub proof fn import_misses_stay_unknown(f: VulnFindingM, sources: Seq<RepoSourceM>)
    requires
        f.ecosystem != Ecosystem::Cargo,
        f.reachable != Some(false),
    ensures
        assessed(f, sources).reachable != Some(false),
{
}

/// Only `reachable` is ever changed.
pub proof fn assessment_only_sets_reachable(f: VulnFindingM, sources: Seq<RepoSourceM>)
    ensures
        assessed(f, sources) == (VulnFindingM {
            reachable: assessed(f, sources).reachable,
            ..f
        }),
{
}

/// A vulnerability that the advisory names no functions for stays unknown in Cargo.
pub proof fn nothing_to_look_for_stays_unknown(f: VulnFindingM, sources: Seq<RepoSourceM>)
    requires
        f.ecosystem == Ecosystem::Cargo,
        f.affected_functions.len() == 0,
    ensures
        assessed(f, sources) == f,
{
}

/// The extension of a name is what follows its last full stop, and there is one exactly where a
/// full stop stands after the start.
pub proof fn an_extension_follows_the_last_stop(stem: Seq<char>, e: Seq<char>)
    requires
        stem.len() > 0,
        !e.contains('.'),
        stem != seq!['.'] || e.len() > 0,
    ensures
        extension_of(stem.push('.') + e) == Some(e),
        extension_of(e) is None,
        extension_of(seq!['.'] + e) is None,
{
    reveal_strlit(".");
    reveal_strlit("..");
    let dot = "."@;
    let name = stem.push('.') + e;
    let hidden = seq!['.'] + e;
    cut::lemma_last_place(name, dot);
    cut::lemma_last_place(e, dot);
    cut::lemma_last_place(hidden, dot);
    let n = stem.len() as int;
    assert(name.subrange(n, n + 1) =~= dot);
    assert(text::occurs_at(name, dot, n));
    assert(hidden.subrange(0, 1) =~= dot);
    assert(text::occurs_at(hidden, dot, 0));
    assert forall|j: int| n < j implies !#[trigger] text::occurs_at(name, dot, j) by {
        if text::occurs_at(name, dot, j) {
            assert(name.subrange(j, j + 1)[0] == name[j]);
            assert(e[j - n - 1] == '.');
            assert(e.contains('.'));
        }
    }
    assert forall|j: int| 0 < j implies !#[trigger] text::occurs_at(hidden, dot, j) by {
        if text::occurs_at(hidden, dot, j) {
            assert(hidden.subrange(j, j + 1)[0] == hidden[j]);
            assert(e[j - 1] == '.');
            assert(e.contains('.'));
        }
    }
    assert forall|j: int| !#[trigger] text::occurs_at(e, dot, j) by {
        if text::occurs_at(e, dot, j) {
            assert(e.subrange(j, j + 1)[0] == e[j]);
            assert(e.contains('.'));
        }
    }
    let i = cut::last_place(name, dot)->0;
    if i < n {
        assert(!text::occurs_at(name, dot, n));
    }
    assert(i == n);
    if name == ".."@ {
        assert(name.len() == 2);
        assert(stem[0] == name[0]);
        assert(stem =~= seq!['.']);
        if e.len() > 0 {
            assert(e[0] == name[2]);
        }
    }
    assert(name.skip(n + 1) =~= e);
    let k = cut::last_place(hidden, dot)->0;
    if k > 0 {
        assert(!text::occurs_at(hidden, dot, k));
    }
}

/// Whether a function is called in a text by its short name, or got by method or by path.
pub open spec fn used_in(t: Seq<char>, path: Seq<char>) -> bool {
    let name = cut::after_last_mark(path, "::"@);
    text::occurs(t, name.push('(')) || text::occurs(t, seq!['.'] + name) || text::occurs(
        t,
        seq![':', ':'] + name,
    )
}

proof fn lemma_used_in(t: Seq<char>, path: Seq<char>)
    ensures
        mention(t, short_name(path)) == used_in(t, path),
{
    reveal_strlit("(");
    reveal_strlit(".");
    reveal_strlit("::");
    let name = short_name(path);
    assert(name + "("@ =~= name.push('('));
    assert("."@ =~= seq!['.']);
    assert("::"@ =~= seq![':', ':']);
}

/// Whether a finding of Cargo is used in the source of a repository that it is in: a Rust file of
/// it uses one of the affected functions.
pub open spec fn used_at(
    f: VulnFindingM,
    sources: Seq<RepoSourceM>,
    o: int,
    file: int,
    function: int,
) -> bool {
    &&& 0 <= o < f.occurrences.len()
    &&& f.occurrences[o] matches OccurrenceM::InRepo { repo, .. } && source_of(sources, repo)
        matches Some(files) && 0 <= file < files.len() && extension_of(files[file].name) == Some(
        "rs"@,
    ) && 0 <= function < f.affected_functions.len() && used_in(
        files[file].text,
        f.affected_functions[function],
    )
}

/// A vulnerability of Cargo whose functions are named is taken to be reached exactly where the
/// source of some repository that it is in uses one of them in a Rust file, and else not to be.
pub proof fn a_used_function_is_reached(f: VulnFindingM, sources: Seq<RepoSourceM>)
    requires
        f.ecosystem == Ecosystem::Cargo,
        f.affected_functions.len() > 0,
    ensures
        assessed(f, sources).reachable == Some(true) <==> exists|o: int, file: int, function: int|
            #[trigger] used_at(f, sources, o, file, function),
        assessed(f, sources).reachable == Some(true) || assessed(f, sources).reachable == Some(
            false,
        ),
{
    let paths = f.affected_functions;
    if mentioned(f, sources) {
        let o = choose|o: int|
            0 <= o < f.occurrences.len() && mentioned_at(
                #[trigger] f.occurrences[o],
                paths,
                sources,
            );
        let files = source_of(sources, f.occurrences[o]->InRepo_repo)->0;
        let file = choose|i: int|
            0 <= i < files.len() && rust_file(#[trigger] files[i]) && mentions_any(
                files[i].text,
                paths,
            );
        let k = choose|k: int|
            0 <= k < paths.len() && mention(files[file].text, short_name(#[trigger] paths[k]));
        lemma_used_in(files[file].text, paths[k]);
        assert(used_at(f, sources, o, file, k));
    }
    if exists|o: int, file: int, function: int| #[trigger] used_at(f, sources, o, file, function) {
        let (o, file, k) = choose|o: int, file: int, function: int| #[trigger]
            used_at(f, sources, o, file, function);
        let files = source_of(sources, f.occurrences[o]->InRepo_repo)->0;
        lemma_used_in(files[file].text, paths[k]);
        assert(mention(files[file].text, short_name(paths[k])));
        assert(mentions_any(files[file].text, paths));
        assert(rust_file(files[file]));
        assert(source_mentions(files, paths));
        assert(mentioned_at(f.occurrences[o], paths, sources));
    }
}

/// Whether a finding is imported in the source of a repository that it is a direct dependency of.
pub open spec fn direct_import_at(
    k: Style,
    f: VulnFindingM,
    sources: Seq<RepoSourceM>,
    o: int,
    file: int,
    line: int,
) -> bool {
    &&& 0 <= o < f.occurrences.len()
    &&& f.occurrences[o] matches OccurrenceM::InRepo { repo, package, dependency_kind, .. }
        && dependency_kind == DependencyKind::Direct && (source_of(sources, repo) matches Some(
        files,
    ) && 0 <= file < files.len() && (extension_of(files[file].name) matches Some(e)
        && style_extension(k, e)) && 0 <= line < cut::lines_of(files[file].text).len()
        && line_imports(k, cut::lines_of(files[file].text)[line], package))
}

/// Outside Cargo and Go a vulnerability is taken to be reached exactly where a line of the source
/// of some repository imports a direct dependency that has it; else what was known stays.
pub proof fn a_direct_import_is_reached(f: VulnFindingM, sources: Seq<RepoSourceM>, k: Style)
    requires
        style_of(f.ecosystem) == Some(k),
    ensures
        (exists|o: int, file: int, line: int| #[trigger]
            direct_import_at(k, f, sources, o, file, line)) ==> assessed(f, sources).reachable
            == Some(true),
        !(exists|o: int, file: int, line: int| #[trigger]
            direct_import_at(k, f, sources, o, file, line)) ==> assessed(f, sources) == f,
{
    if exists|o: int, file: int, line: int| #[trigger]
        direct_import_at(k, f, sources, o, file, line) {
        let (o, file, line) = choose|o: int, file: int, line: int| #[trigger]
            direct_import_at(k, f, sources, o, file, line);
        let files = source_of(sources, f.occurrences[o]->InRepo_repo)->0;
        let pkg = f.occurrences[o]->InRepo_package;
        assert(line_imports(k, cut::lines_of(files[file].text)[line], pkg));
        assert(text_imports(k, files[file].text, pkg));
        assert(style_file(k, files[file]));
        assert(source_imports(k, files, pkg));
        assert(imported_at(k, f.occurrences[o], sources));
    }
    if imported(k, f, sources) {
        let o = choose|o: int|
            0 <= o < f.occurrences.len() && imported_at(k, #[trigger] f.occurrences[o], sources);
        let files = source_of(sources, f.occurrences[o]->InRepo_repo)->0;
        let pkg = f.occurrences[o]->InRepo_package;
        let file = choose|i: int|
            0 <= i < files.len() && style_file(k, #[trigger] files[i]) && text_imports(
                k,
                files[i].text,
                pkg,
            );
        let lines = cut::lines_of(files[file].text);
        let line = choose|i: int| 0 <= i < lines.len() && line_imports(k, #[trigger] lines[i], pkg);
        assert(direct_import_at(k, f, sources, o, file, line));
    }
}

/// Every ecosystem but Cargo and Go has a style of its own.
pub proof fn every_ecosystem_has_its_own_style(a: Ecosystem, b: Ecosystem)
    ensures
        style_of(a) is None <==> a == Ecosystem::Cargo || a == Ecosystem::Go,
        style_of(a) is Some && style_of(a) == style_of(b) ==> a == b,
        style_of(a) == Some(Style::Npm) <==> a == Ecosystem::Npm,
        style_of(a) == Some(Style::Julia) <==> a == Ecosystem::Julia,
        style_of(a) == Some(Style::RubyGems) <==> a == Ecosystem::RubyGems,
        style_of(a) == Some(Style::Pypi) <==> a == Ecosystem::Pypi,
        style_of(a) == Some(Style::NuGet) <==> a == Ecosystem::NuGet,
        style_of(a) == Some(Style::Maven) <==> a == Ecosystem::Maven,
        style_of(a) == Some(Style::Packagist) <==> a == Ecosystem::Packagist,
        style_of(a) == Some(Style::Swift) <==> a == Ecosystem::Swift,
        style_of(a) == Some(Style::Hex) <==> a == Ecosystem::Hex,
        style_of(a) == Some(Style::GitHubActions) <==> a == Ecosystem::GitHubActions,
{
}

/// The source of a repository is that of the first entry with its name; there is none exactly
/// where no entry has it.
pub proof fn the_first_source_counts(sources: Seq<RepoSourceM>, repo: Seq<char>, i: int)
    requires
        0 <= i <= sources.len(),
        i < sources.len() ==> sources[i].repo == repo,
        forall|k: int| 0 <= k < i ==> (#[trigger] sources[k]).repo != repo,
    ensures
        source_of(sources, repo) == (if i < sources.len() {
            Some(sources[i].files)
        } else {
            None
        }),
    decreases sources.len(),
{
    if sources.len() > 0 {
        let l = sources.drop_last();
        let n = l.len() as int;
        assert forall|k: int| 0 <= k < n implies #[trigger] l[k] == sources[k] by {}
        assert(sources[n] == sources.last());
        if i < sources.len() {
            the_first_source_counts(l, repo, i);
        } else {
            the_first_source_counts(l, repo, n);
        }
    }
}

proof fn lemma_occurs(a: Seq<char>, needle: Seq<char>, b: Seq<char>)
    ensures
        text::occurs(a + needle + b, needle),
{
    let s = a + needle + b;
    let n = a.len() as int;
    assert(s.subrange(n, n + needle.len()) =~= needle);
    assert(text::occurs_at(s, needle, n));
}

/// JavaScript that requires a package, or a path inside it, in either kind of quotes imports it,
/// whatever stands around that; so does Ruby.
pub proof fn a_quoted_name_after_require_is_an_import(
    before: Seq<char>,
    pkg: Seq<char>,
    after: Seq<char>,
    mark: char,
    end: char,
)
    requires
        mark == '\'' || mark == '"',
        end == mark || end == '/',
    ensures
        ({
            let line = before + "require"@ + seq![' ', mark] + pkg + seq![end] + after;
            line_imports(Style::Npm, line, pkg) && line_imports(Style::RubyGems, line, pkg)
        }),
{
    reveal_strlit("'");
    reveal_strlit("\"");
    reveal_strlit("/");
    let line = before + "require"@ + seq![' ', mark] + pkg + seq![end] + after;
    lemma_occurs(before, "require"@, seq![' ', mark] + pkg + seq![end] + after);
    assert(before + "require"@ + (seq![' ', mark] + pkg + seq![end] + after) =~= line);
    let quoted = seq![mark] + pkg + seq![end];
    lemma_occurs(before + "require"@ + seq![' '], quoted, after);
    assert(before + "require"@ + seq![' '] + quoted + after =~= line);
    assert(quoted =~= (if mark == '\'' {
        if end == '/' {
            "'"@ + pkg + "/"@
        } else {
            "'"@ + pkg + "'"@
        }
    } else {
        if end == '/' {
            "\""@ + pkg + "/"@
        } else {
            "\""@ + pkg + "\""@
        }
    }));
}

/// A name that is not in quotes is not imported by JavaScript or Ruby.
pub proof fn a_name_without_quotes_is_no_import(line: Seq<char>, pkg: Seq<char>)
    requires
        !line.contains('\''),
        !line.contains('"'),
    ensures
        !line_imports(Style::Npm, line, pkg),
        !line_imports(Style::RubyGems, line, pkg),
{
    reveal_strlit("'");
    reveal_strlit("\"");
    reveal_strlit("/");
    lemma_no_quote(line, "'"@ + pkg + "'"@, '\'');
    lemma_no_quote(line, "\""@ + pkg + "\""@, '"');
    lemma_no_quote(line, "'"@ + pkg + "/"@, '\'');
    lemma_no_quote(line, "\""@ + pkg + "/"@, '"');
}

proof fn lemma_no_quote(line: Seq<char>, needle: Seq<char>, c: char)
    requires
        !line.contains(c),
        needle.len() > 0,
        needle[0] == c,
    ensures
        !text::occurs(line, needle),
{
    if text::occurs(line, needle) {
        let i = choose|i: int| text::occurs_at(line, needle, i);
        assert(line.subrange(i, i + needle.len())[0] == line[i]);
        assert(line.contains(c));
    }
}

/// A word of a text counts only where no longer identifier holds it: after a space, or at the
/// start, and before something that is no part of an identifier, or at the end.
pub proof fn a_word_stands_alone(before: Seq<char>, word: Seq<char>, after: Seq<char>)
    requires
        word.len() > 0,
        before.len() == 0 || !cut::ident_char(before.last()),
        after.len() == 0 || !cut::ident_char(after[0]),
    ensures
        word_in(before + word + after, word),
{
    let s = before + word + after;
    let n = before.len() as int;
    assert(s.subrange(n, n + word.len()) =~= word);
    assert(word_at(s, word, n));
}

/// A word is not found in a longer identifier.
pub proof fn part_of_an_identifier_is_no_word(s: Seq<char>, word: Seq<char>)
    requires
        s.len() > word.len(),
        forall|i: int| 0 <= i < s.len() ==> cut::ident_char(#[trigger] s[i]),
    ensures
        !word_in(s, word),
{
    if word_in(s, word) {
        let i = choose|i: int| #[trigger] word_at(s, word, i);
        if i > 0 {
            assert(cut::ident_char(s[i - 1]));
        } else {
            assert(cut::ident_char(s[i + word.len()]));
        }
    }
}

/// A directory that is not the project's own source is passed over.
pub proof fn foreign_source_is_passed_over(name: Seq<char>)
    ensures
        passed_over(name) <==> name == "target"@ || name == "node_modules"@ || name == "vendor"@
            || name == ".git"@ || name == "dist"@ || name == "build"@,
{
}

proof fn lemma_unindented(s: Seq<char>)
    requires
        s.len() > 0,
        !text::white(s[0]),
    ensures
        unindented(s) == s,
{
    cut::lemma_run_end_at(s, 0, 0, Class::White);
    assert(s.skip(0) =~= s);
}

proof fn lemma_starts(p: Seq<char>, rest: Seq<char>)
    ensures
        starts(p + rest, p),
        cut::after_prefix(p + rest, p) == Some(rest),
{
    let s = p + rest;
    assert(s.subrange(0, p.len() as int) =~= p);
    assert(s.skip(p.len() as int) =~= rest);
}

/// A name that can stand as an identifier does in every language.
pub open spec fn is_name(s: Seq<char>) -> bool {
    s.len() > 0 && forall|i: int| 0 <= i < s.len() ==> cut::ident_char(#[trigger] s[i])
}

/// Julia imports a package by `using` or `import`, and Python one by `import` or `from`, under
/// its name in lower case with underscores; a line without such a word imports nothing.
pub proof fn an_import_names_the_package(pkg: Seq<char>)
    requires
        is_name(pkg),
        text::ascii_lower(pkg) == pkg,
        underscored(pkg) == pkg,
    ensures
        line_imports(Style::Julia, "using "@ + pkg, pkg),
        line_imports(Style::Julia, "import "@ + pkg, pkg),
        line_imports(Style::Pypi, "import "@ + pkg, pkg),
        line_imports(Style::Pypi, "from "@ + pkg, pkg),
        !line_imports(Style::Julia, pkg, pkg),
        !line_imports(Style::Pypi, pkg, pkg),
{
    reveal_strlit("using ");
    reveal_strlit("import ");
    reveal_strlit("from ");
    lemma_keyword("using "@, pkg);
    lemma_keyword("import "@, pkg);
    lemma_keyword("from "@, pkg);
    assert(cut::ident_char(pkg[0]));
    lemma_unindented(pkg);
    lemma_no_space(pkg, "using "@, 5);
    lemma_no_space(pkg, "import "@, 6);
    lemma_no_space(pkg, "from "@, 4);
}

proof fn lemma_keyword(k: Seq<char>, pkg: Seq<char>)
    requires
        k.len() > 0,
        !text::white(k[0]),
        k.last() == ' ',
        is_name(pkg),
    ensures
        starts(unindented(k + pkg), k),
        word_in(k + pkg, pkg),
{
    let none = Seq::<char>::empty();
    assert(!cut::ident_char(' '));
    a_word_stands_alone(k, pkg, none);
    assert(k + pkg + none =~= k + pkg);
    lemma_unindented(k + pkg);
    lemma_starts(k, pkg);
}

proof fn lemma_no_space(s: Seq<char>, p: Seq<char>, k: int)
    requires
        is_name(s),
        0 <= k < p.len(),
        p[k] == ' ',
    ensures
        !starts(s, p),
{
    if starts(s, p) {
        assert(s.subrange(0, p.len() as int)[k] == s[k]);
        assert(cut::ident_char(s[k]));
    }
}

/// A namespace of .NET is used under the name of the package or below it, and a class of Java is
/// imported from below the group of the coordinate; what only starts alike is another.
pub proof fn a_namespace_starts_with_the_package(
    pkg: Seq<char>,
    artifact: Seq<char>,
    below: Seq<char>,
    more: Seq<char>,
)
    requires
        is_name(pkg),
        is_name(more),
    ensures
        line_imports(Style::NuGet, "using "@ + (pkg + (seq!['.'] + below)), pkg),
        line_imports(Style::NuGet, "using "@ + (pkg + seq![';']), pkg),
        line_imports(Style::NuGet, "global using "@ + (pkg + seq![';']), pkg),
        !line_imports(Style::NuGet, "using "@ + (pkg + more), pkg),
        line_imports(
            Style::Maven,
            "import "@ + (pkg + (seq!['.'] + below)),
            pkg + seq![':'] + artifact,
        ),
        !line_imports(Style::Maven, "import "@ + (pkg + more), pkg + seq![':'] + artifact),
{
    reveal_strlit("using ");
    reveal_strlit("global using ");
    reveal_strlit("import ");
    reveal_strlit("static ");
    reveal_strlit(":");
    assert(cut::ident_char(pkg[0]));
    assert(!text::white('u') && !text::white('g') && !text::white('i'));
    let a = pkg + (seq!['.'] + below);
    let b = pkg + seq![';'];
    let c = pkg + more;
    assert(a[0] == pkg[0] && b[0] == pkg[0] && c[0] == pkg[0]);
    lemma_unindented("using "@ + a);
    lemma_unindented("using "@ + b);
    lemma_unindented("using "@ + c);
    lemma_unindented("global using "@ + b);
    lemma_unindented("import "@ + a);
    lemma_unindented("import "@ + c);
    lemma_unindented(a);
    lemma_unindented(b);
    lemma_unindented(c);
    lemma_starts("using "@, a);
    lemma_starts("using "@, b);
    lemma_starts("using "@, c);
    lemma_starts("global using "@, b);
    lemma_starts("import "@, a);
    lemma_starts("import "@, c);
    lemma_starts(pkg, seq!['.'] + below);
    lemma_starts(pkg, seq![';']);
    lemma_starts(pkg, more);
    assert(cut::ident_char(more[0]));
    assert(!cut::ident_char('.') && !cut::ident_char(';'));
    assert(!starts("global using "@ + b, "using "@)) by {
        let s = "global using "@ + b;
        assert(s.subrange(0, 6)[0] == s[0]);
    }
    assert(!pkg.contains(':')) by {
        if pkg.contains(':') {
            let i = choose|i: int| 0 <= i < pkg.len() && pkg[i] == ':';
            assert(cut::ident_char(pkg[i]));
        }
    }
    assert(":"@ =~= seq![':']);
    cut::lemma_halves_at(pkg, ":"@, artifact);
    let k = if pkg.len() > 6 {
        6
    } else {
        pkg.len() as int
    };
    if pkg.len() > 6 {
        assert(cut::ident_char(pkg[6]));
        assert(a[6] == pkg[6]);
    }
    lemma_not_static(a, k);
    if c.len() > 6 {
        assert(cut::ident_char(c[6])) by {
            if pkg.len() > 6 {
                assert(c[6] == pkg[6]);
            } else {
                assert(c[6] == more[6 - pkg.len()]);
            }
        }
    }
    lemma_not_static(c, 6);
}

proof fn lemma_not_static(s: Seq<char>, k: int)
    requires
        0 <= k <= 6,
        k < s.len() ==> s[k] != "static "@[k],
    ensures
        cut::after_prefix(s, "static "@) is None,
{
    reveal_strlit("static ");
    if text::occurs_at(s, "static "@, 0) {
        assert(s.subrange(0, 7)[k] == s[k]);
    }
}

/// An action is used in a workflow where it stands behind the key, in any case of letters, with
/// the at sign right behind its name.
pub proof fn a_workflow_names_the_action(lead: Seq<char>, pkg: Seq<char>, reference: Seq<char>)
    requires
        text::ascii_lower(pkg) == pkg,
    ensures
        line_imports(
            Style::GitHubActions,
            lead + "uses:"@ + (seq![' '] + pkg + "@"@ + reference),
            pkg,
        ),
{
    reveal_strlit("uses:");
    reveal_strlit("@");
    let line = lead + "uses:"@ + (seq![' '] + pkg + "@"@ + reference);
    let low = text::ascii_lower(line);
    let n = lead.len() as int;
    assert forall|i: int| 0 <= i < 5 implies #[trigger] low[n + i] == "uses:"@[i] by {
        assert(line[n + i] == "uses:"@[i]);
        assert(low[n + i] == text::ascii_lower_char(line[n + i]));
    }
    assert(low.subrange(n, n + 5) =~= "uses:"@);
    assert(text::occurs_at(low, "uses:"@, n));
    let m = n + 6;
    let needle = pkg + "@"@;
    assert forall|i: int| 0 <= i < needle.len() implies #[trigger] low[m + i] == needle[i] by {
        assert(low[m + i] == text::ascii_lower_char(line[m + i]));
        if i < pkg.len() {
            assert(line[m + i] == pkg[i]);
            assert(text::ascii_lower(pkg)[i] == text::ascii_lower_char(pkg[i]));
        } else {
            assert(line[m + i] == '@');
        }
    }
    assert(low.subrange(m, m + needle.len()) =~= needle);
    assert(text::occurs_at(low, needle, m));
}

/// The parts of a name are joined with their first letters in upper case.
pub proof fn parts_are_capitalized(a: Seq<char>, mark: char, b: Seq<char>)
    requires
        mark == '-' || mark == '_',
        a.len() > 0,
        b.len() > 0,
        forall|i: int| 0 <= i < a.len() ==> #[trigger] a[i] != '-' && a[i] != '_',
        forall|i: int| 0 <= i < b.len() ==> #[trigger] b[i] != '-' && b[i] != '_',
    ensures
        pascal(a) == seq![text::ascii_upper_char(a[0])] + a.skip(1),
        pascal(a.push(mark) + b) == pascal(a) + pascal(b),
{
    lemma_pascal_plain(a);
    lemma_pascal_joined(a, mark, b);
}

proof fn lemma_pascal_plain(a: Seq<char>)
    requires
        a.len() > 0,
        forall|i: int| 0 <= i < a.len() ==> #[trigger] a[i] != '-' && a[i] != '_',
    ensures
        pascal(a) == seq![text::ascii_upper_char(a[0])] + a.skip(1),
    decreases a.len(),
{
    let l = a.drop_last();
    assert(a[a.len() - 1] != '-' && a[a.len() - 1] != '_');
    if a.len() > 1 {
        assert(a[a.len() - 2] != '-' && a[a.len() - 2] != '_');
        lemma_pascal_plain(l);
        assert(pascal(a) =~= seq![text::ascii_upper_char(a[0])] + a.skip(1));
    } else {
        assert(pascal(l) =~= Seq::empty());
        assert(pascal(a) =~= seq![text::ascii_upper_char(a[0])] + a.skip(1));
    }
}

proof fn lemma_pascal_joined(a: Seq<char>, mark: char, b: Seq<char>)
    requires
        mark == '-' || mark == '_',
        forall|i: int| 0 <= i < b.len() ==> #[trigger] b[i] != '-' && b[i] != '_',
    ensures
        pascal(a.push(mark) + b) == pascal(a) + pascal(b),
    decreases b.len(),
{
    let s = a.push(mark) + b;
    if b.len() == 0 {
        assert(s =~= a.push(mark));
        assert(s.drop_last() =~= a);
        assert(pascal(a) + pascal(b) =~= pascal(a));
    } else {
        let l = b.drop_last();
        lemma_pascal_joined(a, mark, l);
        assert(s.drop_last() =~= a.push(mark) + l);
        assert(s.last() == b.last());
        assert(b[b.len() - 1] != '-' && b[b.len() - 1] != '_');
        if b.len() == 1 {
            assert(s[s.len() - 2] == mark);
            assert(pascal(l) =~= Seq::empty());
        } else {
            assert(s[s.len() - 2] == b[b.len() - 2]);
        }
        assert(pascal(s) =~= pascal(a) + pascal(b));
    }
}

} // verus!
