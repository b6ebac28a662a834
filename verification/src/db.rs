//! The advisory database: where it comes from, and whether it is fresh enough.
use vstd::prelude::*;
use crate::cut;
use crate::number;
use crate::orchestrate::{Toolchain, ToolchainM};
use crate::text;
use crate::version;
use crate::version::Version;

verus! {

/// Where the advisory database is taken from.
#[derive(Debug, Clone, Copy, PartialEq, Eq, Structural)]
pub enum DbSource {
    /// A local clone, as it is.
    Local,
    /// A local clone, at a given revision.
    LocalAt,
    /// The default cache.
    Cache,
    /// The network.
    Fetch,
}

/// Where the advisory database is taken from, where that can be done.
pub open spec fn source_for(has_path: bool, has_rev: bool, offline: bool) -> Option<DbSource> {
    match (has_path, has_rev) {
        (true, true) => Some(DbSource::LocalAt),
        (true, false) => Some(DbSource::Local),
        (false, true) => None,
        (false, false) => Some(
            if offline {
                DbSource::Cache
            } else {
                DbSource::Fetch
            },
        ),
    }
}

/// Where the advisory database is taken from, given whether a path and a revision were named.
/// A revision needs a path.
pub fn db_source(has_path: bool, has_rev: bool, offline: bool) -> (r: Result<DbSource, String>)
    ensures
        match r {
            Ok(s) => (has_path || !has_rev) && s == (if has_path {
                if has_rev {
                    DbSource::LocalAt
                } else {
                    DbSource::Local
                }
            } else if offline {
                DbSource::Cache
            } else {
                DbSource::Fetch
            }),
            Err(e) => !has_path && has_rev && e@
                == "--db-rev requires --db <PATH> (a local advisory-db git clone)"@,
        },
        match r {
            Ok(s) => source_for(has_path, has_rev, offline) == Some(s),
            Err(_) => source_for(has_path, has_rev, offline) is None,
        },
{
    if has_path {
        if has_rev {
            Ok(DbSource::LocalAt)
        } else {
            Ok(DbSource::Local)
        }
    } else if has_rev {
        Err("--db-rev requires --db <PATH> (a local advisory-db git clone)".to_owned())
    } else if offline {
        Ok(DbSource::Cache)
    } else {
        Ok(DbSource::Fetch)
    }
}

// --- Durations ---

/// The seconds that a unit stands for, where the letter is one.
pub open spec fn unit_seconds(c: char) -> Option<int> {
    if c == 'd' {
        Some(86_400)
    } else if c == 'h' {
        Some(3_600)
    } else if c == 'm' {
        Some(60)
    } else if c == 's' {
        Some(1)
    } else {
        None
    }
}

/// The seconds that a duration comes to: a number, with a unit at its end or in seconds.
pub open spec fn duration_of(spec_text: Seq<char>) -> Option<int> {
    let t = cut::trimmed(spec_text);
    let unit = if t.len() > 0 {
        unit_seconds(t.last())
    } else {
        None
    };
    match unit {
        Some(m) => match number::signed_in(cut::trimmed(t.drop_last())) {
            Some(n) => Some(n * m),
            None => None,
        },
        None => number::signed_in(cut::trimmed(t)),
    }
}

/// The duration, if it is one, does not overflow 64 bits.
pub open spec fn fits(spec_text: Seq<char>) -> bool {
    duration_of(spec_text) matches Some(n) ==> i64::MIN <= n <= i64::MAX
}

fn read_duration(spec_text: &str) -> (r: Option<i128>)
    ensures
        match r {
            Some(n) => duration_of(spec_text@) == Some(n as int),
            None => duration_of(spec_text@) is None,
        },
{
    let t: String = cut::trim(spec_text);
    let v: Vec<char> = text::chars(t.as_str());
    let mut unit: i128 = 0;
    if v.len() > 0 {
        let c: char = v[v.len() - 1];
        if c == 'd' {
            unit = 86_400;
        } else if c == 'h' {
            unit = 3_600;
        } else if c == 'm' {
            unit = 60;
        } else if c == 's' {
            unit = 1;
        }
    }
    if unit > 0 {
        assert(v@.drop_last() =~= v@.subrange(0, v@.len() - 1));
        let front: String = text::text_of(&v, 0, v.len() - 1);
        match number::parse_signed(cut::trim(front.as_str()).as_str()) {
            Some(n) => {
                let m: i128 = n as i128;
                assert(-0x8000_0000_0000_0000 <= m <= 0x7fff_ffff_ffff_ffff);
                if unit == 86_400 {
                    Some(m * 86_400)
                } else if unit == 3_600 {
                    Some(m * 3_600)
                } else if unit == 60 {
                    Some(m * 60)
                } else {
                    Some(m)
                }
            },
            None => None,
        }
    } else {
        match number::parse_signed(cut::trim(t.as_str()).as_str()) {
            Some(n) => Some(n as i128),
            None => None,
        }
    }
}

/// Whether a duration, if it is one, fits in 64 bits.
pub fn duration_fits(spec_text: &str) -> (r: bool)
    ensures
        r == fits(spec_text@),
{
    match read_duration(spec_text) {
        Some(n) => -0x8000_0000_0000_0000 <= n && n <= 0x7fff_ffff_ffff_ffff,
        None => true,
    }
}

pub open spec fn invalid_duration(spec_text: Seq<char>) -> Seq<char> {
    "invalid duration `"@ + cut::trimmed(spec_text) + "`"@
}

/// Reads a duration such as `7d`, `24h`, `30m` or `90s`, or a number of seconds.
pub fn parse_duration_secs(spec_text: &str) -> (r: Result<i64, String>)
    requires
        fits(spec_text@),
    ensures
        match duration_of(spec_text@) {
            Some(n) => r matches Ok(k) && k == n,
            None => r matches Err(e) && e@ == invalid_duration(spec_text@),
        },
{
    match read_duration(spec_text) {
        Some(n) => Ok(n as i64),
        None => {
            let mut e: String = text::join("invalid duration `", cut::trim(spec_text).as_str());
            e.append("`");
            Err(e)
        },
    }
}

/// Whether an age is known and within the limit.
pub open spec fn within_limit(age: Option<i64>, limit: int) -> bool {
    match age {
        Some(a) => a <= limit,
        None => false,
    }
}

/// Whether a database of the given age may be used under a limit; an age that is not known may
/// not.
pub fn check_db_age(age: Option<i64>, spec_text: &str) -> (r: Result<(), String>)
    requires
        fits(spec_text@),
    ensures
        match duration_of(spec_text@) {
            None => r matches Err(e) && e@ == invalid_duration(spec_text@),
            Some(limit) => match age {
                Some(a) => if a <= limit {
                    r is Ok
                } else {
                    r matches Err(e) && e@ == "advisory DB is "@ + number::signed_text(a as int)
                        + "s old, older than --max-db-age "@ + number::signed_text(limit) + "s"@
                },
                None => r matches Err(e) && e@
                    == "cannot determine advisory DB age; refusing under --max-db-age"@,
            },
        },
        r is Ok <==> (duration_of(spec_text@) matches Some(limit) && within_limit(age, limit)),
{
    match parse_duration_secs(spec_text) {
        Err(e) => Err(e),
        Ok(limit) => match age {
            Some(a) => if a <= limit {
                Ok(())
            } else {
                let mut e: String = text::join(
                    "advisory DB is ",
                    number::show_signed(a).as_str(),
                );
                e.append("s old, older than --max-db-age ");
                e.append(number::show_signed(limit).as_str());
                e.append("s");
                Err(e)
            },
            None => Err(
                "cannot determine advisory DB age; refusing under --max-db-age".to_owned(),
            ),
        },
    }
}

// --- Toolchain ---

/// The toolchain that the compiler reports: the second word, where it is a version.
pub open spec fn toolchain_in(t: Seq<char>) -> Option<ToolchainM> {
    let words = cut::words_of(t);
    if words.len() < 2 {
        None
    } else {
        match version::semver_version(words[1]) {
            Some(v) => Some(ToolchainM { channel: "rustc "@ + words[1], version: v }),
            None => None,
        }
    }
}

/// The toolchain that the compiler reports.
pub fn toolchain_from(t: &str) -> (r: Option<Toolchain>)
    ensures
        r.deep_view() == toolchain_in(t@),
{
    let words: Vec<String> = cut::words(t);
    let ghost all = words.deep_view();
    assert(all.len() == words.len());
    if words.len() < 2 {
        return None;
    }
    assert(all[1] == words[1]@);
    match Version::parse(words[1].as_str()) {
        Some(v) => Some(
            Toolchain { channel: text::join("rustc ", words[1].as_str()), version: v },
        ),
        None => None,
    }
}

/// A duration is its number of seconds, minutes, hours or days, as the letter behind it says;
/// without a letter it is one of seconds.
pub proof fn a_duration_goes_by_its_letter(n: int)
    requires
        i64::MIN <= n <= i64::MAX,
    ensures
        duration_of(number::signed_text(n).push('d')) == Some(n * 86_400),
        duration_of(number::signed_text(n).push('h')) == Some(n * 3_600),
        duration_of(number::signed_text(n).push('m')) == Some(n * 60),
        duration_of(number::signed_text(n).push('s')) == Some(n),
        duration_of(number::signed_text(n)) == Some(n),
{
    let t = number::signed_text(n);
    number::a_number_is_read_back(n);
    number::lemma_signed_text(n);
    assert(t.push('d').drop_last() =~= t && t.push('h').drop_last() =~= t && t.push(
        'm',
    ).drop_last() =~= t && t.push('s').drop_last() =~= t);
    cut::lemma_trimmed_plain(t);
    cut::lemma_trimmed_plain(t.push('d'));
    cut::lemma_trimmed_plain(t.push('h'));
    cut::lemma_trimmed_plain(t.push('m'));
    cut::lemma_trimmed_plain(t.push('s'));
}

/// A database that is named is used as it is, at the revision that is named; a revision needs one.
/// An offline run never fetches, and any other fetches exactly where no database is named.
pub proof fn offline_fetches_no_database(has_path: bool, has_rev: bool, offline: bool)
    ensures
        source_for(has_path, has_rev, offline) is None <==> has_rev && !has_path,
        source_for(has_path, has_rev, offline) == Some(DbSource::Fetch) <==> !has_path && !has_rev
            && !offline,
        source_for(has_path, has_rev, offline) == Some(DbSource::Cache) <==> !has_path && !has_rev
            && offline,
        source_for(has_path, has_rev, offline) == Some(DbSource::LocalAt) <==> has_path && has_rev,
        source_for(has_path, has_rev, offline) == Some(DbSource::Local) <==> has_path && !has_rev,
{
}

/// A database is within a limit up to the very limit, and none that is older than one that is not
/// within it is; one of unknown age never is.
pub proof fn an_old_database_is_refused(a: i64, b: i64, limit: int)
    ensures
        !within_limit(None, limit),
        within_limit(Some(a), a as int),
        a < limit ==> within_limit(Some(a), limit),
        a > limit ==> !within_limit(Some(a), limit),
        a <= b && within_limit(Some(b), limit) ==> within_limit(Some(a), limit),
{
}

} // verus!
