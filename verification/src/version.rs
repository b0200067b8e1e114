//! The versioned-configuration resolver.
//!
//! A product's configuration directories carry the product version in the
//! directory name: the first run of one to four digits, a dot, and one or
//! two further digits, read as an `(epoch, minor)` pair. Among several
//! candidate directories the one with the greatest version pair wins; on a
//! tie, the candidate listed last.

use vstd::prelude::*;
use crate::text::last_segment;
use crate::text::last_segment_str;
use vstd::string::StrSliceExecFns;

verus! {

/// Whether `c` is an ASCII decimal digit.
pub open spec fn is_ascii_digit(c: char) -> bool {
    0x30 <= c as u32 && c as u32 <= 0x39
}

/// The numeric value of an ASCII digit.
pub open spec fn digit_val(c: char) -> int {
    c as u32 - 0x30
}

/// The length of the run of ASCII digits starting at position `i` of `s`.
pub open spec fn digit_run(s: Seq<char>, i: int) -> int
    decreases s.len() - i,
        when 0 <= i <= s.len()
{
    if i >= s.len() || !is_ascii_digit(s[i]) {
        0
    } else {
        1 + digit_run(s, i + 1)
    }
}

/// The decimal value of the `l` digits of `s` starting at position `i`.
pub open spec fn digits_value(s: Seq<char>, i: int, l: int) -> int
    decreases l,
        when l >= 0
{
    if l <= 0 {
        0
    } else {
        digits_value(s, i, l - 1) * 10 + digit_val(s[i + l - 1])
    }
}

/// The version pair read at position `i` of `s`: a run of one to four
/// digits, a literal dot, then at least one further digit, of which at
/// most two are taken.
pub open spec fn version_at(s: Seq<char>, i: int) -> Option<(int, int)> {
    let r = digit_run(s, i);
    if 1 <= r <= 4 && i + r < s.len() && s[i + r] == '.' && digit_run(s, i + r + 1) >= 1 {
        let r2 = digit_run(s, i + r + 1);
        let l2 = if r2 <= 2 {
            r2
        } else {
            2
        };
        Some((digits_value(s, i, r), digits_value(s, i + r + 1, l2)))
    } else {
        None
    }
}

/// The version pair read at the first position of `s`, from `i` on, where
/// one can be read.
pub open spec fn first_version_from(s: Seq<char>, i: int) -> Option<(int, int)>
    decreases s.len() - i,
        when 0 <= i <= s.len()
{
    if i >= s.len() {
        None
    } else if version_at(s, i) is Some {
        version_at(s, i)
    } else {
        first_version_from(s, i + 1)
    }
}

/// The version pair encoded in the final segment of the path `path`.
pub open spec fn version_of_path(path: Seq<char>) -> Option<(int, int)> {
    match last_segment(path) {
        Some(seg) => first_version_from(seg, 0),
        None => None,
    }
}

/// Every position inside a digit run holds a digit.
proof fn lemma_run_digits(s: Seq<char>, i: int, k: int)
    requires
        0 <= i <= s.len(),
        0 <= k < digit_run(s, i),
    ensures
        i + k < s.len(),
        is_ascii_digit(s[i + k]),
    decreases k,
{
    if k > 0 {
        lemma_run_digits(s, i + 1, k - 1);
    }
}

/// Ten to the power `l`.
spec fn pow10(l: int) -> int
    decreases l,
        when l >= 0
{
    if l <= 0 {
        1
    } else {
        10 * pow10(l - 1)
    }
}

/// The value of `l` digits is below ten to the `l`.
proof fn lemma_digits_value_bound(s: Seq<char>, i: int, l: int)
    requires
        0 <= i,
        0 <= l,
        i + l <= s.len(),
        forall|k: int| 0 <= k < l ==> is_ascii_digit(#[trigger] s[i + k]),
    ensures
        0 <= digits_value(s, i, l) < pow10(l),
    decreases l,
{
    if l > 0 {
        lemma_digits_value_bound(s, i, l - 1);
    }
}

/// Whether `c` is an ASCII decimal digit.
fn is_digit(c: char) -> (r: bool)
    ensures
        r == is_ascii_digit(c),
{
    let u = c as u32;
    0x30 <= u && u <= 0x39
}

/// The length of the digit run starting at character `i` of `s`.
fn digit_run_at(s: &str, i: usize) -> (r: usize)
    requires
        i <= s@.len(),
    ensures
        r == digit_run(s@, i as int),
        i + r <= s@.len(),
{
    let n = s.unicode_len();
    let mut j = i;
    while j < n && is_digit(s.get_char(j))
        invariant
            i <= j <= n,
            n == s@.len(),
            digit_run(s@, i as int) == j - i + digit_run(s@, j as int),
        decreases n - j,
    {
        j += 1;
    }
    j - i
}

/// The value of the `l` digits of `s` starting at character `i`.
fn parse_digits(s: &str, i: usize, l: usize) -> (v: u16)
    requires
        l <= 4,
        i + l <= s@.len(),
        i + l <= usize::MAX,
        forall|k: int| 0 <= k < l ==> is_ascii_digit(#[trigger] s@[i + k]),
    ensures
        v == digits_value(s@, i as int, l as int),
{
    let mut v: u16 = 0;
    let mut k: usize = 0;
    while k < l
        invariant
            k <= l,
            l <= 4,
            i + l <= s@.len(),
            i + l <= usize::MAX,
            forall|t: int| 0 <= t < l ==> is_ascii_digit(#[trigger] s@[i + t]),
            v == digits_value(s@, i as int, k as int),
            v < pow10(k as int),
        decreases l - k,
    {
        proof {
            assert(is_ascii_digit(s@[i + k as int]));
            assert(pow10(k as int) <= pow10(3) && pow10(3) == 1000) by {
                reveal_with_fuel(pow10, 5);
            }
        }
        let c = s.get_char(i + k);
        let d = (c as u32 - 0x30) as u16;
        v = v * 10 + d;
        k += 1;
        proof {
            lemma_digits_value_bound(s@, i as int, k as int);
        }
    }
    v
}

/// The version pair read at character `i` of `s`, if any.
fn version_at_str(s: &str, i: usize) -> (r: Option<(u16, u16)>)
    requires
        i <= s@.len(),
    ensures
        match r {
            Some(v) => version_at(s@, i as int) == Some((v.0 as int, v.1 as int)),
            None => version_at(s@, i as int) is None,
        },
{
    let n = s.unicode_len();
    let run = digit_run_at(s, i);
    if 1 <= run && run <= 4 && i + run < n && s.get_char(i + run) == '.' {
        let run2 = digit_run_at(s, i + run + 1);
        if run2 >= 1 {
            let l2 = if run2 <= 2 {
                run2
            } else {
                2
            };
            proof {
                assert forall|k: int| 0 <= k < run implies is_ascii_digit(#[trigger] s@[i + k]) by {
                    lemma_run_digits(s@, i as int, k);
                }
                assert forall|k: int| 0 <= k < l2 implies is_ascii_digit(
                    #[trigger] s@[i + run + 1 + k],
                ) by {
                    lemma_run_digits(s@, i + run + 1, k);
                }
            }
            let epoch = parse_digits(s, i, run);
            let minor = parse_digits(s, i + run + 1, l2);
            return Some((epoch, minor));
        }
    }
    None
}

/// A path with an associated version.
#[derive(Debug)]
pub struct VersionedPath {
    /// The filesystem path, as a UTF-8 string.
    pub path: String,
    /// The version as a pair of epoch and minor version.
    pub version: (u16, u16),
}

impl VersionedPath {
    /// Extract the version number from the final segment of the given path.
    ///
    /// Return `None` if the path doesn't contain any valid version.
    pub fn extract_version(path: String) -> (r: Option<VersionedPath>)
        ensures
            match r {
                Some(vp) => vp.path == path && version_of_path(path@) == Some(
                    (vp.version.0 as int, vp.version.1 as int),
                ),
                None => version_of_path(path@) is None,
            },
    {
        let seg = match last_segment_str(path.as_str()) {
            Some(seg) => seg,
            None => {
                return None;
            },
        };
        let s = seg.as_str();
        let n = s.unicode_len();
        let mut i: usize = 0;
        while i < n
            invariant
                i <= n,
                n == s@.len(),
                s@ == seg@,
                last_segment(path@) == Some(seg@),
                first_version_from(s@, 0) == first_version_from(s@, i as int),
            decreases n - i,
        {
            match version_at_str(s, i) {
                Some(v) => {
                    return Some(VersionedPath { path, version: v });
                },
                None => {},
            }
            i += 1;
        }
        None
    }

    /// Get the path out of this versioned path.
    pub fn into_path(self) -> (r: String)
        ensures
            r == self.path,
    {
        self.path
    }
}

/// The path and version of the candidate with the greatest version pair,
/// taking the later of two equally versioned candidates; candidates whose
/// name encodes no version are passed over.
pub open spec fn latest_of(entries: Seq<String>) -> Option<(Seq<char>, (int, int))>
    decreases entries.len(),
{
    if entries.len() == 0 {
        None
    } else {
        let prior = latest_of(entries.drop_last());
        match version_of_path(entries.last()@) {
            None => prior,
            Some(v) => match prior {
                None => Some((entries.last()@, v)),
                Some(b) => if v.0 > b.1.0 || (v.0 == b.1.0 && v.1 >= b.1.1) {
                    Some((entries.last()@, v))
                } else {
                    Some(b)
                },
            },
        }
    }
}

/// Ordering on version pairs: epoch first, then minor.
pub open spec fn version_le(a: (int, int), b: (int, int)) -> bool {
    a.0 < b.0 || (a.0 == b.0 && a.1 <= b.1)
}

/// Law: the resolver picks a candidate of greatest version. It comes back
/// empty exactly when no candidate's name encodes a version; otherwise its
/// choice is one of the candidates, and no candidate's version exceeds the
/// chosen one.
pub proof fn lemma_latest_of_is_greatest(entries: Seq<String>)
    ensures
        (latest_of(entries) is None) <==> (forall|k: int|
            0 <= k < entries.len() ==> version_of_path((#[trigger] entries[k])@) is None),
        latest_of(entries) matches Some(best) ==> (exists|k: int|
            0 <= k < entries.len() && (#[trigger] entries[k])@ == best.0 && version_of_path(
                entries[k]@,
            ) == Some(best.1)),
        latest_of(entries) matches Some(best) ==> (forall|k: int|
            0 <= k < entries.len() && version_of_path((#[trigger] entries[k])@) is Some
                ==> version_le(version_of_path(entries[k]@)->Some_0, best.1)),
    decreases entries.len(),
{
    if entries.len() > 0 {
        let prior = entries.drop_last();
        lemma_latest_of_is_greatest(prior);
        let pb = latest_of(prior);
        let lastv = version_of_path(entries.last()@);
        assert(forall|k: int| 0 <= k < prior.len() ==> #[trigger] prior[k] == entries[k]);
        assert(entries.last() == entries[entries.len() - 1]);
        if latest_of(entries) is None {
            assert(lastv is None && pb is None);
            assert forall|k: int| 0 <= k < entries.len() implies version_of_path(
                (#[trigger] entries[k])@,
            ) is None by {
                if k < entries.len() - 1 {
                    assert(version_of_path(prior[k]@) is None);
                }
            }
        } else {
            let best = latest_of(entries)->Some_0;
            if pb is Some {
                let b = pb->Some_0;
                let w = choose|k: int|
                    0 <= k < prior.len() && (#[trigger] prior[k])@ == b.0 && version_of_path(
                        prior[k]@,
                    ) == Some(b.1);
                assert(entries[w]@ == b.0 && version_of_path(entries[w]@) == Some(b.1));
                if !(lastv is Some && (lastv->Some_0.0 > b.1.0 || (lastv->Some_0.0 == b.1.0
                    && lastv->Some_0.1 >= b.1.1))) {
                    assert(best == b);
                } else {
                    assert(best == (entries.last()@, lastv->Some_0));
                }
            } else {
                assert(lastv is Some && best == (entries.last()@, lastv->Some_0));
            }
            assert(exists|k: int|
                0 <= k < entries.len() && (#[trigger] entries[k])@ == best.0 && version_of_path(
                    entries[k]@,
                ) == Some(best.1));
            assert forall|k: int|
                0 <= k < entries.len() && version_of_path((#[trigger] entries[k])@)
                    is Some implies version_le(version_of_path(entries[k]@)->Some_0, best.1) by {
                if k < entries.len() - 1 {
                    assert(version_of_path(prior[k]@) is Some);
                    assert(version_le(version_of_path(prior[k]@)->Some_0, pb->Some_0.1));
                }
            }
        }
    }
}

/// A location for configuration of a JetBrains product.
#[derive(Debug)]
pub struct ConfigLocation {
    /// The vendor configuration directory.
    pub vendor_dir: String,
    /// A glob for configuration directories inside the vendor directory.
    pub config_glob: String,
    /// The file name for recent projects.
    pub projects_filename: String,
}

impl ConfigLocation {
    /// Find, among the candidate configuration directories `entries`, the
    /// one of the latest installed product version.
    pub fn find_config_dir_of_latest_version(&self, entries: &Vec<String>) -> (r: Option<
        VersionedPath,
    >)
        ensures
            match r {
                Some(vp) => latest_of(entries@) == Some(
                    (vp.path@, (vp.version.0 as int, vp.version.1 as int)),
                ),
                None => latest_of(entries@) is None,
            },
    {
        let mut best: Option<VersionedPath> = None;
        let mut i: usize = 0;
        proof {
            assert(entries@.take(0) =~= Seq::<String>::empty());
        }
        while i < entries.len()
            invariant
                i <= entries@.len(),
                match best {
                    Some(vp) => latest_of(entries@.take(i as int)) == Some(
                        (vp.path@, (vp.version.0 as int, vp.version.1 as int)),
                    ),
                    None => latest_of(entries@.take(i as int)) is None,
                },
            decreases entries@.len() - i,
        {
            proof {
                assert(entries@.take(i + 1).drop_last() =~= entries@.take(i as int));
                assert(entries@.take(i + 1).last() == entries@[i as int]);
            }
            match VersionedPath::extract_version(entries[i].clone()) {
                Some(vp) => {
                    proof {
                        assert(entries@[i as int]@ == vp.path@);
                    }
                    let replace = match &best {
                        Some(b) => vp.version.0 > b.version.0 || (vp.version.0 == b.version.0
                            && vp.version.1 >= b.version.1),
                        None => true,
                    };
                    if replace {
                        best = Some(vp);
                    }
                },
                None => {},
            }
            i += 1;
        }
        proof {
            assert(entries@.take(entries@.len() as int) =~= entries@);
        }
        best
    }

    /// The path of the recent projects file inside the latest versioned
    /// configuration directory among `entries`, if there is one.
    pub fn find_latest_recent_projects_file(&self, entries: &Vec<String>) -> (r: Option<String>)
        ensures
            match r {
                Some(p) => latest_of(entries@) is Some && p@ == latest_of(
                    entries@,
                )->Some_0.0 + "/options/"@ + self.projects_filename@,
                None => latest_of(entries@) is None,
            },
    {
        match self.find_config_dir_of_latest_version(entries) {
            Some(vp) => {
                let mut p = vp.into_path();
                p.append("/options/");
                p.append(self.projects_filename.as_str());
                Some(p)
            },
            None => None,
        }
    }
}

} // verus!
