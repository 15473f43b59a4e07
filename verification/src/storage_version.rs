//! Storage versioning: every persisted structure records the software
//! version that wrote it, and readers gate on that version before
//! trusting any binary layout.
//!
//! Reading and writing the version file is plain I/O and lives with the
//! caller; this module owns what the file's text means.
use vstd::prelude::*;

verus! {

/// Name of the version file inside an index directory.
pub const VERSION_FILE: &'static str = "version.info";

/// Failures of loading or gating persisted state.
#[derive(Debug, Clone, Copy, PartialEq, Eq, Structural)]
pub enum StorageError {
    /// No version is recorded, so stored bytes cannot be trusted.
    MissingVersion,
    /// The version file's text is not a semantic version.
    VersionParse,
    /// The recorded version is not compatible with the running software.
    IncompatibleVersion,
    /// The payload's self-description is inconsistent.
    CorruptData,
}

/// A semantic version's release triple (pre-release and build metadata
/// carry no compatibility meaning here and are dropped on parse).
#[derive(Debug, Clone, Copy, PartialEq, Eq, Structural)]
pub struct Version {
    /// Major version.
    pub major: u64,
    /// Minor version.
    pub minor: u64,
    /// Patch version.
    pub patch: u64,
}

/// The release triple that `s` parses to under semantic-version syntax,
/// or `None` where `s` is not a semantic version.
pub uninterp spec fn semver_of(s: Seq<char>) -> Option<Version>;

/// A decimal digit.
pub open spec fn is_dec_digit(c: char) -> bool {
    '0' <= c && c <= '9'
}

/// Numeric value of a digit sequence, most significant first.
pub open spec fn dec_val(s: Seq<char>) -> int
    decreases s.len(),
{
    if s.len() == 0 {
        0
    } else {
        dec_val(s.drop_last()) * 10 + (s.last() as int - '0' as int)
    }
}

/// A plain version number: digits only, no leading zero, value in range.
pub open spec fn is_plain_num(s: Seq<char>) -> bool {
    &&& s.len() > 0
    &&& forall|i: int| 0 <= i < s.len() ==> is_dec_digit(#[trigger] s[i])
    &&& (s[0] != '0' || s.len() == 1)
    &&& dec_val(s) <= u64::MAX
}

/// Relies on semver::Version::parse: it yields the major, minor and
/// patch numbers of a semantic version and rejects anything else; on
/// plain `major.minor.patch` text (three numbers without leading
/// zeros), those are exactly the three dot-separated numbers.
#[verifier::external_body]
fn parse_semver(s: &str) -> (r: Option<Version>)
    ensures
        r == semver_of(s@),
        forall|i: int, j: int|
            #![trigger s@.subrange(0, i), s@.subrange(i + 1, j)]
            0 < i < j < s@.len() - 1 && s@[i] == '.' && s@[j] == '.' && is_plain_num(
                s@.subrange(0, i),
            ) && is_plain_num(s@.subrange(i + 1, j)) && is_plain_num(
                s@.subrange(j + 1, s@.len() as int),
            ) ==> r == Some(
                Version {
                    major: dec_val(s@.subrange(0, i)) as u64,
                    minor: dec_val(s@.subrange(i + 1, j)) as u64,
                    patch: dec_val(s@.subrange(j + 1, s@.len() as int)) as u64,
                },
            ),
{
    match semver::Version::parse(s) {
        Ok(v) => Some(Version { major: v.major, minor: v.minor, patch: v.patch }),
        Err(_) => None,
    }
}

/// Capability of every persisted structure: report the software version
/// it is built as. The raw text must parse back to that version, which
/// each implementation proves rather than trusting a build to panic.
pub trait StorageVersion {
    /// The version as a value.
    spec fn spec_current() -> Version;

    /// The version string recorded on save.
    fn current_raw() -> (s: &'static str)
        ensures
            semver_of(s@) == Some(Self::spec_current()),
    ;

    /// The running software's version.
    fn current() -> (v: Version)
        ensures
            v == Self::spec_current(),
    ;
}

/// Compatibility rule: stored data is trusted exactly when its
/// recorded release and the running software agree on major and minor.
pub open spec fn compatible(stored: Version, current: Version) -> bool {
    stored.major == current.major && stored.minor == current.minor
}

/// The meaning of a version file's text: absent text means "no version
/// recorded" (the expected state of fresh storage), unparsable text is
/// an error, anything else is the recorded version.
pub fn load_from_contents(contents: Option<&str>) -> (r: Result<Option<Version>, StorageError>)
    ensures
        match contents {
            None => r == Ok::<Option<Version>, StorageError>(None),
            Some(s) => match semver_of(s@) {
                Some(v) => r == Ok::<Option<Version>, StorageError>(Some(v)),
                None => r == Err::<Option<Version>, StorageError>(StorageError::VersionParse),
            },
        },
{
    match contents {
        None => Ok(None),
        Some(s) => match parse_semver(s) {
            Some(v) => Ok(Some(v)),
            None => Err(StorageError::VersionParse),
        },
    }
}

/// Gate stored data on its recorded version: absent or incompatible
/// versions are rejected, each with its own error.
pub fn check_compatibility(stored: Option<Version>, current: Version) -> (r: Result<
    (),
    StorageError,
>)
    ensures
        match stored {
            None => r == Err::<(), StorageError>(StorageError::MissingVersion),
            Some(v) => if compatible(v, current) {
                r == Ok::<(), StorageError>(())
            } else {
                r == Err::<(), StorageError>(StorageError::IncompatibleVersion)
            },
        },
{
    match stored {
        None => Err(StorageError::MissingVersion),
        Some(v) => {
            if v.major == current.major && v.minor == current.minor {
                Ok(())
            } else {
                Err(StorageError::IncompatibleVersion)
            }
        },
    }
}

/// Version marker of the inverted-index storage layout.
#[derive(Debug, Clone, Copy, PartialEq, Eq, Structural)]
pub struct IndexStorageVersion {}

impl StorageVersion for IndexStorageVersion {
    open spec fn spec_current() -> Version {
        Version { major: 0, minor: 1, patch: 0 }
    }

    fn current_raw() -> (s: &'static str) {
        let s = "0.1.0";
        let parsed = parse_semver(s);
        proof {
            reveal_strlit("0.1.0");
            let t = s@;
            assert(t.len() == 5);
            assert(t[0] == '0' && t[1] == '.' && t[2] == '1' && t[3] == '.' && t[4] == '0');
            let a = t.subrange(0, 1);
            let b = t.subrange(2, 3);
            let c = t.subrange(4, 5);
            assert(a.len() == 1 && a[0] == '0');
            assert(b.len() == 1 && b[0] == '1');
            assert(c.len() == 1 && c[0] == '0');
            assert(dec_val(a) == 0) by {
                assert(a.drop_last().len() == 0);
                assert(dec_val(a.drop_last()) == 0);
                assert(a.last() == '0');
            }
            assert(dec_val(b) == 1) by {
                assert(b.drop_last().len() == 0);
                assert(dec_val(b.drop_last()) == 0);
                assert(b.last() == '1');
            }
            assert(dec_val(c) == 0) by {
                assert(c.drop_last().len() == 0);
                assert(dec_val(c.drop_last()) == 0);
                assert(c.last() == '0');
            }
            assert(is_plain_num(a) && is_plain_num(b) && is_plain_num(c));
            let gi: int = 1;
            let gj: int = 3;
            assert(t.subrange(0, gi) == a && t.subrange(gi + 1, gj) == b && t.subrange(
                gj + 1,
                t.len() as int,
            ) == c);
            assert(0 < gi < gj < t.len() - 1 && t[gi] == '.' && t[gj] == '.' && is_plain_num(
                t.subrange(0, gi),
            ) && is_plain_num(t.subrange(gi + 1, gj)) && is_plain_num(
                t.subrange(gj + 1, t.len() as int),
            ));
            assert(parsed == Some(
                Version {
                    major: dec_val(t.subrange(0, gi)) as u64,
                    minor: dec_val(t.subrange(gi + 1, gj)) as u64,
                    patch: dec_val(t.subrange(gj + 1, t.len() as int)) as u64,
                },
            ));
            assert(parsed == Some(Version { major: 0, minor: 1, patch: 0 }));
        }
        s
    }

    fn current() -> (v: Version) {
        Version { major: 0, minor: 1, patch: 0 }
    }
}

} // verus!
