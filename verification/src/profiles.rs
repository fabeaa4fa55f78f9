//! Saved profiles: named sets of roots with an optional default age.
use vstd::prelude::*;
use vstd::string::*;

use crate::age::{age_error_message, parse_age, parse_overflows, AgeError, AgeThreshold};
use crate::path::{lex_compare, lex_lt, lemma_lex_irreflexive, lemma_lex_total, lemma_lex_transitive};
use crate::sort::{is_stable_order, stable_order, SortKey};
use crate::text::{chars_of, copy_strings, extend_chars, extend_vec, slice_chars, string_of, vec_equal};

verus! {

/// A profile as read from the configuration file, before it is checked.
#[derive(Debug)]
pub struct RawProfile {
    pub name: String,
    pub roots: Vec<String>,
    pub older_than: Option<String>,
}

/// A saved profile: its name, the roots it scans and its default age.
#[derive(Debug, PartialEq, Eq)]
pub struct Profile {
    pub name: String,
    pub roots: Vec<String>,
    pub older_than: Option<AgeThreshold>,
}

/// The saved profiles, ordered by name.
#[derive(Debug)]
pub struct Profiles {
    profiles: Vec<Profile>,
}

impl View for Profiles {
    type V = Seq<Profile>;

    closed spec fn view(&self) -> Seq<Profile> {
        self.profiles@
    }
}

impl Default for Profiles {
    fn default() -> (r: Self)
        ensures
            r@.len() == 0,
    {
        Profiles { profiles: Vec::new() }
    }
}

/// A root with a leading `~` replaced by the home directory, when it is known.
pub open spec fn expanded(raw: Seq<char>, home: Option<Seq<char>>) -> Seq<char> {
    if raw == seq!['~'] {
        match home {
            Some(h) => h,
            None => raw,
        }
    } else if raw.len() >= 2 && raw[0] == '~' && raw[1] == '/' {
        match home {
            Some(h) => h + seq!['/'] + raw.skip(2),
            None => raw,
        }
    } else {
        raw
    }
}

/// The text of an optional setting.
pub open spec fn opt_str(o: Option<&str>) -> Option<Seq<char>> {
    match o {
        Some(s) => Some(s@),
        None => None,
    }
}

/// Replaces a leading `~` in `raw` with `home`: `~` alone becomes `home`, and
/// `~/rest` becomes `home/rest`. Without a home directory, `raw` is kept.
pub fn expand_home(raw: &str, home: Option<&str>) -> (r: String)
    ensures
        r@ == expanded(raw@, opt_str(home)),
{
    let v = chars_of(raw);
    if v.len() == 1 && v[0] == '~' {
        assert(v@ =~= seq!['~']);
        return match home {
            Some(h) => String::from_str(h),
            None => String::from_str(raw),
        };
    }
    if v.len() >= 2 && v[0] == '~' && v[1] == '/' {
        assert(v@ != seq!['~']);
        return match home {
            Some(h) => {
                let mut out = chars_of(h);
                out.push('/');
                let rest = slice_chars(&v, 2, v.len());
                extend_vec(&mut out, &rest);
                assert(rest@ =~= raw@.skip(2));
                string_of(out.as_slice())
            },
            None => String::from_str(raw),
        };
    }
    assert(v@ != seq!['~']);
    String::from_str(raw)
}

/// The age of a raw profile can be read.
pub open spec fn age_setting_ok(o: Option<String>) -> bool {
    match o {
        Some(s) => parse_age(s@) is Ok,
        None => true,
    }
}

/// The position of the first raw profile whose age cannot be read.
pub open spec fn first_bad_profile(raw: Seq<RawProfile>) -> Option<int>
    decreases raw.len(),
{
    if raw.len() == 0 {
        None
    } else {
        match first_bad_profile(raw.drop_last()) {
            Some(k) => Some(k),
            None => if age_setting_ok(raw.last().older_than) {
                None
            } else {
                Some(raw.len() - 1)
            },
        }
    }
}

/// The message for a profile whose age cannot be read.
pub open spec fn profile_error(p: RawProfile) -> Seq<char> {
    let e = match p.older_than {
        Some(s) => match parse_age(s@) {
            Err(e) => e,
            Ok(_) => AgeError::Empty,
        },
        None => AgeError::Empty,
    };
    "profile "@ + p.name@ + " has invalid older_than: "@ + age_error_message(e)
}

/// `out` is the profile `raw` stands for, with `home` as the home directory.
pub open spec fn is_profile_of(out: Profile, raw: RawProfile, home: Option<Seq<char>>) -> bool {
    &&& out.name@ == raw.name@
    &&& out.roots@.len() == raw.roots@.len()
    &&& forall|k: int| 0 <= k < out.roots@.len() ==> #[trigger] out.roots@[k]@ == expanded(raw.roots@[k]@, home)
    &&& match raw.older_than {
        Some(s) => match parse_age(s@) {
            Ok(d) => out.older_than matches Some(t) && t.day_count() == d,
            Err(_) => false,
        },
        None => out.older_than is None,
    }
}

/// The codes of the characters of a name, by which names are ordered.
pub open spec fn name_codes(name: Seq<char>) -> Seq<u32> {
    name.map_values(|c: char| c as u32)
}

fn codes_of(s: &str) -> (r: Vec<u32>)
    ensures
        r@ == name_codes(s@),
{
    let v = chars_of(s);
    let mut out: Vec<u32> = Vec::new();
    let mut i: usize = 0;
    while i < v.len()
        invariant
            0 <= i <= v.len(),
            v@ == s@,
            out@ == name_codes(v@.take(i as int)),
        decreases v.len() - i,
    {
        out.push(v[i] as u32);
        i = i + 1;
        assert(out@ =~= name_codes(v@.take(i as int)));
    }
    assert(v@.take(v.len() as int) =~= v@);
    out
}

/// Profiles are ordered by name.
impl SortKey for RawProfile {
    open spec fn key_lt(self, other: Self) -> bool {
        lex_lt(name_codes(self.name@), name_codes(other.name@))
    }

    proof fn lemma_irreflexive(a: Self) {
        lemma_lex_irreflexive(name_codes(a.name@));
    }

    proof fn lemma_transitive(a: Self, b: Self, c: Self) {
        lemma_lex_transitive(name_codes(a.name@), name_codes(b.name@), name_codes(c.name@));
    }

    proof fn lemma_tie_transitive(a: Self, b: Self, c: Self) {
        lemma_lex_total(name_codes(a.name@), name_codes(b.name@));
        lemma_lex_total(name_codes(b.name@), name_codes(c.name@));
        lemma_lex_irreflexive(name_codes(a.name@));
    }

    fn sorts_before(&self, other: &Self) -> (r: bool) {
        let a = codes_of(self.name.as_str());
        let b = codes_of(other.name.as_str());
        lex_compare(&a, &b) == Some(true)
    }
}

/// The profile a checked raw profile stands for.
fn convert(raw: &RawProfile, home: Option<&str>) -> (r: Profile)
    requires
        age_setting_ok(raw.older_than),
        match raw.older_than {
            Some(s) => !parse_overflows(s@),
            None => true,
        },
    ensures
        is_profile_of(r, *raw, opt_str(home)),
{
    let mut roots: Vec<String> = Vec::new();
    let mut i: usize = 0;
    while i < raw.roots.len()
        invariant
            0 <= i <= raw.roots.len(),
            roots@.len() == i,
            forall|k: int| 0 <= k < i ==> #[trigger] roots@[k]@ == expanded(raw.roots@[k]@, opt_str(home)),
        decreases raw.roots.len() - i,
    {
        roots.push(expand_home(raw.roots[i].as_str(), home));
        i = i + 1;
    }
    let older_than = match &raw.older_than {
        Some(s) => match AgeThreshold::parse(s.as_str()) {
            Ok(t) => Some(t),
            Err(_) => None,
        },
        None => None,
    };
    Profile { name: raw.name.clone(), roots, older_than }
}

/// The message for a profile whose age cannot be read.
fn error_for(raw: &RawProfile) -> (r: String)
    requires
        !age_setting_ok(raw.older_than),
        match raw.older_than {
            Some(s) => !parse_overflows(s@),
            None => true,
        },
    ensures
        r@ == profile_error(*raw),
{
    let mut out: Vec<char> = Vec::new();
    extend_chars(&mut out, "profile ");
    extend_chars(&mut out, raw.name.as_str());
    extend_chars(&mut out, " has invalid older_than: ");
    match &raw.older_than {
        Some(s) => match AgeThreshold::parse(s.as_str()) {
            Err(m) => extend_chars(&mut out, m.as_str()),
            Ok(_) => {},
        },
        None => {},
    }
    string_of(out.as_slice())
}

impl Profiles {
    /// Checks raw profiles and orders them by name. The first profile, in the
    /// order given, whose age cannot be read is refused with a message that
    /// names it; roots have a leading `~` replaced by `home`.
    pub fn from_raw(raw: Vec<RawProfile>, home: Option<&str>) -> (r: Result<Profiles, String>)
        requires
            forall|k: int|
                0 <= k < raw@.len() ==> match (#[trigger] raw@[k]).older_than {
                    Some(s) => !parse_overflows(s@),
                    None => true,
                },
        ensures
            match first_bad_profile(raw@) {
                Some(k) => r matches Err(m) && m@ == profile_error(raw@[k]),
                None => r matches Ok(ps) && ps@.len() == raw@.len() && exists|order: Seq<usize>|
                    is_stable_order(raw@, order) && forall|k: int|
                        0 <= k < ps@.len() ==> is_profile_of(
                            #[trigger] ps@[k],
                            raw@[order[k] as int],
                            opt_str(home),
                        ),
            },
    {
        let mut i: usize = 0;
        while i < raw.len()
            invariant
                0 <= i <= raw.len(),
                first_bad_profile(raw@.take(i as int)) is None,
                forall|k: int|
                    0 <= k < raw@.len() ==> match (#[trigger] raw@[k]).older_than {
                        Some(s) => !parse_overflows(s@),
                        None => true,
                    },
            decreases raw.len() - i,
        {
            proof {
                assert(raw@.take(i + 1).drop_last() =~= raw@.take(i as int));
            }
            let ok = match &raw[i].older_than {
                Some(s) => AgeThreshold::parse(s.as_str()).is_ok(),
                None => true,
            };
            if !ok {
                proof {
                    lemma_first_bad_prefix(raw@, i as int + 1);
                }
                return Err(error_for(&raw[i]));
            }
            i = i + 1;
        }
        assert(raw@.take(raw.len() as int) =~= raw@);
        proof {
            lemma_no_bad(raw@);
        }
        let order = stable_order(&raw);
        let mut profiles: Vec<Profile> = Vec::new();
        let mut j: usize = 0;
        while j < order.len()
            invariant
                0 <= j <= order.len(),
                is_stable_order(raw@, order@),
                forall|k: int| 0 <= k < raw@.len() ==> age_setting_ok((#[trigger] raw@[k]).older_than),
                forall|k: int|
                    0 <= k < raw@.len() ==> match (#[trigger] raw@[k]).older_than {
                        Some(s) => !parse_overflows(s@),
                        None => true,
                    },
                profiles@.len() == j,
                forall|k: int|
                    0 <= k < j ==> is_profile_of(#[trigger] profiles@[k], raw@[order@[k] as int], opt_str(home)),
            decreases order.len() - j,
        {
            let o = order[j];
            assert(o < raw@.len());
            let ghost ro = raw@[o as int];
            assert(age_setting_ok(ro.older_than));
            profiles.push(convert(&raw[o], home));
            j = j + 1;
        }
        Ok(Profiles { profiles })
    }

    /// The first profile called `name`.
    pub fn get(&self, name: &str) -> (r: Option<&Profile>)
        ensures
            match first_named(self@, name@) {
                Some(k) => r matches Some(p) && *p == self@[k],
                None => r is None,
            },
    {
        let want = chars_of(name);
        let mut i: usize = 0;
        while i < self.profiles.len()
            invariant
                0 <= i <= self.profiles.len(),
                want@ == name@,
                forall|k: int| 0 <= k < i ==> (#[trigger] self.profiles@[k]).name@ != name@,
            decreases self.profiles.len() - i,
        {
            let have = chars_of(self.profiles[i].name.as_str());
            if vec_equal(&have, &want) {
                proof {
                    lemma_first_named(self.profiles@, name@, i as int);
                }
                return Some(&self.profiles[i]);
            }
            i = i + 1;
        }
        proof {
            lemma_first_named_none(self.profiles@, name@);
        }
        None
    }

    /// All profiles, ordered by name.
    pub fn all(&self) -> (r: &[Profile])
        ensures
            r@ == self@,
    {
        self.profiles.as_slice()
    }

    /// Whether there is no profile.
    pub fn is_empty(&self) -> (r: bool)
        ensures
            r == (self@.len() == 0),
    {
        self.profiles.len() == 0
    }
}

/// The roots to scan: those given on the command line, else those of the
/// profile; `None` when there are neither (the current directory is scanned).
pub fn effective_roots(cli_roots: Vec<String>, profile: Option<&Profile>) -> (r: Option<Vec<String>>)
    ensures
        cli_roots@.len() > 0 ==> r == Some(cli_roots),
        cli_roots@.len() == 0 ==> match profile {
            Some(p) => r matches Some(v) && v@ == p.roots@,
            None => r is None,
        },
{
    if cli_roots.len() > 0 {
        return Some(cli_roots);
    }
    match profile {
        Some(p) => Some(copy_strings(&p.roots)),
        None => None,
    }
}

/// The age in force: the one given on the command line, else that of the
/// profile, else 30 days.
pub fn effective_age(cli_age: Option<AgeThreshold>, profile: Option<&Profile>) -> (r: AgeThreshold)
    ensures
        match cli_age {
            Some(t) => r == t,
            None => match profile {
                Some(p) => match p.older_than {
                    Some(t) => r == t,
                    None => r.day_count() == 30,
                },
                None => r.day_count() == 30,
            },
        },
{
    match cli_age {
        Some(t) => t,
        None => match profile {
            Some(p) => match p.older_than {
                Some(t) => t,
                None => AgeThreshold::days(30),
            },
            None => AgeThreshold::days(30),
        },
    }
}

/// The position of the first profile called `name`.
pub open spec fn first_named(ps: Seq<Profile>, name: Seq<char>) -> Option<int>
    decreases ps.len(),
{
    if ps.len() == 0 {
        None
    } else {
        match first_named(ps.drop_last(), name) {
            Some(k) => Some(k),
            None => if ps.last().name@ == name {
                Some(ps.len() - 1)
            } else {
                None
            },
        }
    }
}

proof fn lemma_first_named(ps: Seq<Profile>, name: Seq<char>, i: int)
    requires
        0 <= i < ps.len(),
        ps[i].name@ == name,
        forall|k: int| 0 <= k < i ==> (#[trigger] ps[k]).name@ != name,
    ensures
        first_named(ps, name) == Some(i),
    decreases ps.len(),
{
    if i < ps.len() - 1 {
        lemma_first_named(ps.drop_last(), name, i);
    } else {
        lemma_first_named_none(ps.drop_last(), name);
    }
}

proof fn lemma_first_named_none(ps: Seq<Profile>, name: Seq<char>)
    requires
        forall|k: int| 0 <= k < ps.len() ==> (#[trigger] ps[k]).name@ != name,
    ensures
        first_named(ps, name) is None,
    decreases ps.len(),
{
    if ps.len() > 0 {
        lemma_first_named_none(ps.drop_last(), name);
    }
}

proof fn lemma_first_bad_prefix(raw: Seq<RawProfile>, n: int)
    requires
        0 < n <= raw.len(),
        first_bad_profile(raw.take(n - 1)) is None,
        !age_setting_ok(raw[n - 1].older_than),
    ensures
        first_bad_profile(raw) == Some(n - 1),
    decreases raw.len(),
{
    if n < raw.len() {
        assert(raw.drop_last().take(n - 1) =~= raw.take(n - 1));
        assert(raw.drop_last()[n - 1] == raw[n - 1]);
        lemma_first_bad_prefix(raw.drop_last(), n);
    } else {
        assert(raw.take(n - 1) =~= raw.drop_last());
    }
}

proof fn lemma_no_bad(raw: Seq<RawProfile>)
    requires
        first_bad_profile(raw) is None,
    ensures
        forall|k: int| 0 <= k < raw.len() ==> age_setting_ok((#[trigger] raw[k]).older_than),
    decreases raw.len(),
{
    if raw.len() > 0 {
        lemma_no_bad(raw.drop_last());
        assert forall|k: int| 0 <= k < raw.len() implies age_setting_ok((#[trigger] raw[k]).older_than) by {
            if k < raw.len() - 1 {
                assert(raw[k] == raw.drop_last()[k]);
            }
        }
    }
}

} // verus!
