//! Settings: what each cycle reads from the configuration text, and the
//! checks that make an error of anything missing or invalid.

use vstd::prelude::*;
use vstd::string::StrSliceExecFns;
use vstd::string::StringExecFns;

verus! {

/// `c` is an ASCII decimal digit.
pub open spec fn is_digit(c: char) -> bool {
    '0' <= c && c <= '9'
}

/// The value of the ASCII digit `c`.
pub open spec fn digit_value(c: char) -> nat {
    ((c as u32) - ('0' as u32)) as nat
}

/// The value of a run of decimal digits, most significant first.
pub open spec fn digits_value(s: Seq<char>) -> nat
    decreases s.len(),
{
    if s.len() == 0 {
        0
    } else {
        digits_value(s.drop_last()) * 10 + digit_value(s.last())
    }
}

/// The digits of an unsigned number's text: all of it, or what follows a
/// leading `+`.
pub open spec fn unsigned_digits(s: Seq<char>) -> Seq<char> {
    if s.len() > 0 && s[0] == '+' {
        s.drop_first()
    } else {
        s
    }
}

/// The value that an unsigned integer type's `from_str` reads from `s`, if
/// `s` is a number's text: an optional `+`, then one or more ASCII digits.
pub open spec fn number_value(s: Seq<char>) -> Option<nat> {
    let d = unsigned_digits(s);
    if d.len() > 0 && forall|i: int| 0 <= i < d.len() ==> is_digit(#[trigger] d[i]) {
        Some(digits_value(d))
    } else {
        None
    }
}

proof fn lemma_digits_value_grows(d: Seq<char>, i: int, j: int)
    requires
        0 <= i <= j <= d.len(),
    ensures
        digits_value(d.take(i)) <= digits_value(d.take(j)),
    decreases j - i,
{
    if i < j {
        lemma_digits_value_grows(d, i, j - 1);
        assert(d.take(j).drop_last() =~= d.take(j - 1));
    }
}

/// The number that `s` writes, if it is a number's text and the value fits
/// in a `u64`.
pub fn parse_u64(s: &str) -> (r: Option<u64>)
    ensures
        r == (match number_value(s@) {
            Some(v) => if v <= u64::MAX {
                Some(v as u64)
            } else {
                None
            },
            None => None,
        }),
{
    let n = s.unicode_len();
    let mut i: usize = 0;
    if n > 0 && s.get_char(0) == '+' {
        i = 1;
    }
    let ghost d = unsigned_digits(s@);
    let start = i;
    assert(d =~= s@.skip(start as int));
    if i == n {
        return None;
    }
    let mut v: u64 = 0;
    while i < n
        invariant
            n == s@.len(),
            start <= i <= n,
            d == s@.skip(start as int),
            d == unsigned_digits(s@),
            forall|k: int| 0 <= k < i - start ==> is_digit(#[trigger] d[k]),
            v as nat == digits_value(d.take(i - start)),
        decreases n - i,
    {
        let c = s.get_char(i);
        assert(c == d[i - start]);
        if !('0' <= c && c <= '9') {
            assert(!is_digit(d[i - start]));
            return None;
        }
        let digit: u64 = (c as u32 - '0' as u32) as u64;
        assert(d.take(i - start + 1).drop_last() =~= d.take(i - start));
        assert(digit as nat == digit_value(d[i - start]));
        assert(digits_value(d.take(i - start + 1)) == v * 10 + digit);
        if v > (u64::MAX - digit) / 10 {
            proof {
                assert(v * 10 + digit > u64::MAX) by (nonlinear_arith)
                    requires
                        v > (u64::MAX - digit) / 10,
                        digit <= 9,
                ;
                lemma_digits_value_grows(d, i - start + 1, d.len() as int);
                assert(d.take(d.len() as int) =~= d);
            }
            return None;
        }
        assert(v * 10 + digit <= u64::MAX) by (nonlinear_arith)
            requires
                v <= (u64::MAX - digit) / 10,
                digit <= 9,
        ;
        v = v * 10 + digit;
        i = i + 1;
    }
    assert(d.take(i - start) =~= d);
    Some(v)
}

/// Whether rust-ini reads `text` as an INI document.
pub uninterp spec fn ini_parses(text: Seq<char>) -> bool;

/// The first value of `key` in the general section (the keys before any
/// section header) of the INI document `text`, if it has one.
pub uninterp spec fn ini_general_value(text: Seq<char>, key: Seq<char>) -> Option<Seq<char>>;

/// The keys and values of the first section named `section` of the INI
/// document `text`, in their order there, if it has such a section.
pub uninterp spec fn ini_section_pairs(text: Seq<char>, section: Seq<char>) -> Option<
    Seq<(Seq<char>, Seq<char>)>,
>;

/// Relies on rust-ini's `Ini::load_from_str`: whether the text parses.
#[verifier::external_body]
fn ini_is_valid(text: &str) -> (r: bool)
    ensures
        r == ini_parses(text@),
{
    ini::Ini::load_from_str(text).is_ok()
}

/// Relies on rust-ini's `Ini::load_from_str`, `Ini::section(None)` and
/// `Properties::get`: the first value of a key of the general section.
#[verifier::external_body]
fn ini_general_lookup(text: &str, key: &str) -> (r: Option<String>)
    ensures
        match r {
            Some(v) => ini_general_value(text@, key@) == Some(v@),
            None => ini_general_value(text@, key@) is None,
        },
{
    let ini = ini::Ini::load_from_str(text).ok()?;
    let props = ini.section(None::<String>)?;
    Some(props.get(key)?.to_string())
}

/// The texts of a sequence of pairs of strings.
pub open spec fn pair_texts(v: Seq<(String, String)>) -> Seq<(Seq<char>, Seq<char>)> {
    v.map_values(|p: (String, String)| (p.0@, p.1@))
}

/// Relies on rust-ini's `Ini::load_from_str`, `Ini::section(Some(..))` and
/// `Properties::iter`: the keys and values of a named section, in order.
#[verifier::external_body]
fn ini_section_lookup(text: &str, section: &str) -> (r: Option<Vec<(String, String)>>)
    ensures
        match r {
            Some(v) => ini_section_pairs(text@, section@) == Some(pair_texts(v@)),
            None => ini_section_pairs(text@, section@) is None,
        },
{
    let ini = ini::Ini::load_from_str(text).ok()?;
    let props = ini.section(Some(section))?;
    Some(props.iter().map(|(k, v)| (k.to_string(), v.to_string())).collect())
}

/// What can be wrong with the configuration. Each one ends the process.
#[derive(Clone, Copy, Debug, PartialEq, Eq, Structural)]
pub enum ConfigError {
    /// The text is not an INI document.
    Malformed,
    /// No `intervalminutes` key.
    MissingInterval,
    /// `intervalminutes` is not a positive whole number of minutes that fits
    /// in a `u64` once counted in seconds.
    InvalidInterval,
    /// No `outdir` key.
    MissingOutputDir,
    /// No `maxbackupsperworld` key.
    MissingRetentionCap,
    /// `maxbackupsperworld` is not a whole number that fits in a `usize`.
    InvalidRetentionCap,
    /// No `[Worlds]` section.
    NoWorldsSection,
    /// The output directory does not exist.
    OutputDirNotFound,
    /// The source directory of the world at this index does not exist.
    WorldDirNotFound(usize),
}

/// A world: its name, and the directory that its archives are taken of.
#[derive(Clone, Debug, PartialEq, Eq)]
pub struct WorldEntry {
    pub name: String,
    pub source: String,
}

/// One cycle's settings, read afresh every cycle.
#[derive(Clone, Debug, PartialEq, Eq)]
pub struct Settings {
    /// Seconds to sleep between cycles; positive.
    pub interval_secs: u64,
    /// The directory the archives go to.
    pub output_dir: String,
    /// How many archives each world keeps.
    pub retention_cap: usize,
    /// The worlds, each name once.
    pub worlds: Vec<WorldEntry>,
}

/// The names of the worlds.
pub open spec fn world_names(w: Seq<WorldEntry>) -> Seq<Seq<char>> {
    w.map_values(|e: WorldEntry| e.name@)
}

/// The worlds as a map from name to source directory.
pub open spec fn world_map(w: Seq<WorldEntry>) -> Map<Seq<char>, Seq<char>> {
    Map::new(
        |n: Seq<char>| exists|i: int| 0 <= i < w.len() && #[trigger] w[i].name@ == n,
        |n: Seq<char>| w[choose|i: int| 0 <= i < w.len() && #[trigger] w[i].name@ == n].source@,
    )
}

/// The worlds that the `[Worlds]` pairs name: a name given twice takes the
/// later directory.
pub open spec fn world_table(pairs: Seq<(Seq<char>, Seq<char>)>) -> Map<Seq<char>, Seq<char>>
    decreases pairs.len(),
{
    if pairs.len() == 0 {
        Map::empty()
    } else {
        world_table(pairs.drop_last()).insert(pairs.last().0, pairs.last().1)
    }
}

impl Settings {
    /// The interval is positive and each world's name occurs once.
    pub open spec fn wf(&self) -> bool {
        &&& self.interval_secs > 0
        &&& world_names(self.worlds@).no_duplicates()
    }
}

/// Adds a world, or gives a world of that name a new directory.
pub fn add_world(worlds: &mut Vec<WorldEntry>, name: String, source: String)
    requires
        world_names(old(worlds)@).no_duplicates(),
    ensures
        world_names(final(worlds)@).no_duplicates(),
        world_map(final(worlds)@) == world_map(old(worlds)@).insert(name@, source@),
{
    let ghost w0 = worlds@;
    let n = worlds.len();
    let mut k: usize = 0;
    while k < n
        invariant
            n == worlds@.len(),
            worlds@ == w0,
            k <= n,
            forall|i: int| 0 <= i < k ==> (#[trigger] worlds@[i]).name@ != name@,
        ensures
            worlds@ == w0,
            k <= n,
            forall|i: int| 0 <= i < k ==> (#[trigger] worlds@[i]).name@ != name@,
            k < n ==> w0[k as int].name@ == name@,
        decreases n - k,
    {
        if worlds[k].name == name {
            break;
        }
        k = k + 1;
    }
    let ghost nv = name@;
    let ghost sv = source@;
    if k < n {
        worlds.set(k, WorldEntry { name, source });
        let ghost w1 = worlds@;
        assert(world_names(w1) =~= world_names(w0).update(k as int, nv));
        assert(world_names(w1).no_duplicates()) by {
            assert forall|i: int, j: int|
                0 <= i < j < w1.len() implies world_names(w1)[i] != world_names(w1)[j] by {
                assert(world_names(w0)[i] != world_names(w0)[j]);
                if i == k as int {
                    assert(world_names(w0)[k as int] == nv);
                } else if j == k as int {
                    assert(world_names(w0)[k as int] == nv);
                }
            }
        }
        assert(world_map(w1) =~= world_map(w0).insert(nv, sv)) by {
            assert forall|m: Seq<char>| world_map(w1).dom().contains(m) <==> world_map(
                w0,
            ).insert(nv, sv).dom().contains(m) by {
                if m != nv {
                    if exists|i: int| 0 <= i < w0.len() && #[trigger] w0[i].name@ == m {
                        let i = choose|i: int| 0 <= i < w0.len() && #[trigger] w0[i].name@ == m;
                        assert(w1[i].name@ == m);
                    }
                    if exists|i: int| 0 <= i < w1.len() && #[trigger] w1[i].name@ == m {
                        let i = choose|i: int| 0 <= i < w1.len() && #[trigger] w1[i].name@ == m;
                        assert(w0[i].name@ == m);
                    }
                } else {
                    assert(w1[k as int].name@ == m);
                }
            }
            assert forall|m: Seq<char>| #[trigger]
                world_map(w1).dom().contains(m) implies world_map(w1)[m] == world_map(w0).insert(
                nv,
                sv,
            )[m] by {
                let i = choose|i: int| 0 <= i < w1.len() && #[trigger] w1[i].name@ == m;
                assert(world_names(w1)[i] == m);
                if m == nv {
                    assert(world_names(w1)[k as int] == m);
                } else {
                    let j = choose|j: int| 0 <= j < w0.len() && #[trigger] w0[j].name@ == m;
                    assert(world_names(w0)[j] == m);
                    assert(world_names(w0)[i] == m);
                }
            }
        }
    } else {
        worlds.push(WorldEntry { name, source });
        let ghost w1 = worlds@;
        assert(world_names(w1) =~= world_names(w0).push(nv));
        assert(world_names(w1).no_duplicates()) by {
            assert forall|i: int, j: int|
                0 <= i < j < w1.len() implies world_names(w1)[i] != world_names(w1)[j] by {
                if j == n as int {
                    assert(w0[i].name@ != nv);
                } else {
                    assert(world_names(w0)[i] != world_names(w0)[j]);
                }
            }
        }
        assert(world_map(w1) =~= world_map(w0).insert(nv, sv)) by {
            assert forall|m: Seq<char>| world_map(w1).dom().contains(m) <==> world_map(
                w0,
            ).insert(nv, sv).dom().contains(m) by {
                if exists|i: int| 0 <= i < w0.len() && #[trigger] w0[i].name@ == m {
                    let i = choose|i: int| 0 <= i < w0.len() && #[trigger] w0[i].name@ == m;
                    assert(w1[i].name@ == m);
                }
                if m == nv {
                    assert(w1[n as int].name@ == m);
                }
            }
            assert forall|m: Seq<char>| #[trigger]
                world_map(w1).dom().contains(m) implies world_map(w1)[m] == world_map(w0).insert(
                nv,
                sv,
            )[m] by {
                let i = choose|i: int| 0 <= i < w1.len() && #[trigger] w1[i].name@ == m;
                assert(world_names(w1)[i] == m);
                if m == nv {
                    assert(world_names(w1)[n as int] == m);
                } else {
                    let j = choose|j: int| 0 <= j < w0.len() && #[trigger] w0[j].name@ == m;
                    assert(world_names(w0)[j] == m);
                    assert(world_names(w1)[j] == m);
                }
            }
        }
    }
}

/// A positive number of minutes whose count of seconds fits in a `u64`.
pub open spec fn valid_interval(v: Seq<char>) -> bool {
    match number_value(v) {
        Some(m) => 0 < m && m * 60 <= u64::MAX,
        None => false,
    }
}

/// A whole number that fits in a `usize`.
pub open spec fn valid_cap(v: Seq<char>) -> bool {
    match number_value(v) {
        Some(c) => c <= usize::MAX,
        None => false,
    }
}

/// The value of the key `intervalminutes`.
pub open spec fn interval_text(text: Seq<char>) -> Option<Seq<char>> {
    ini_general_value(text, "intervalminutes"@)
}

/// The value of the key `outdir`.
pub open spec fn output_dir_text(text: Seq<char>) -> Option<Seq<char>> {
    ini_general_value(text, "outdir"@)
}

/// The value of the key `maxbackupsperworld`.
pub open spec fn cap_text(text: Seq<char>) -> Option<Seq<char>> {
    ini_general_value(text, "maxbackupsperworld"@)
}

/// The pairs of the `[Worlds]` section.
pub open spec fn worlds_pairs(text: Seq<char>) -> Option<Seq<(Seq<char>, Seq<char>)>> {
    ini_section_pairs(text, "Worlds"@)
}

/// The first thing wrong with the configuration text, in the order in which
/// it is read, if anything is.
pub open spec fn config_error(text: Seq<char>) -> Option<ConfigError> {
    if !ini_parses(text) {
        Some(ConfigError::Malformed)
    } else if interval_text(text) is None {
        Some(ConfigError::MissingInterval)
    } else if !valid_interval(interval_text(text)->0) {
        Some(ConfigError::InvalidInterval)
    } else if output_dir_text(text) is None {
        Some(ConfigError::MissingOutputDir)
    } else if cap_text(text) is None {
        Some(ConfigError::MissingRetentionCap)
    } else if !valid_cap(cap_text(text)->0) {
        Some(ConfigError::InvalidRetentionCap)
    } else if worlds_pairs(text) is None {
        Some(ConfigError::NoWorldsSection)
    } else {
        None
    }
}

/// Reads the settings from the configuration text: the general keys
/// `intervalminutes`, `outdir` and `maxbackupsperworld`, and one world for
/// each key of the `[Worlds]` section, its value being the world's source
/// directory. Whether the directories exist is checked by
/// `check_directories`.
pub fn settings_from_text(text: &str) -> (r: Result<Settings, ConfigError>)
    ensures
        match r {
            Ok(s) => {
                &&& config_error(text@) is None
                &&& s.wf()
                &&& s.interval_secs == number_value(interval_text(text@)->0)->0 * 60
                &&& output_dir_text(text@) == Some(s.output_dir@)
                &&& s.retention_cap == number_value(cap_text(text@)->0)->0
                &&& world_map(s.worlds@) == world_table(worlds_pairs(text@)->0)
            },
            Err(e) => config_error(text@) == Some(e),
        },
{
    if !ini_is_valid(text) {
        return Err(ConfigError::Malformed);
    }
    let interval = match ini_general_lookup(text, "intervalminutes") {
        Some(v) => v,
        None => return Err(ConfigError::MissingInterval),
    };
    let minutes = match parse_u64(interval.as_str()) {
        Some(m) => m,
        None => return Err(ConfigError::InvalidInterval),
    };
    if minutes == 0 || minutes > u64::MAX / 60 {
        assert(minutes == 0 || minutes * 60 > u64::MAX) by (nonlinear_arith)
            requires
                minutes == 0 || minutes > u64::MAX / 60,
        ;
        return Err(ConfigError::InvalidInterval);
    }
    let output_dir = match ini_general_lookup(text, "outdir") {
        Some(v) => v,
        None => return Err(ConfigError::MissingOutputDir),
    };
    let cap_value = match ini_general_lookup(text, "maxbackupsperworld") {
        Some(v) => v,
        None => return Err(ConfigError::MissingRetentionCap),
    };
    let cap = match parse_u64(cap_value.as_str()) {
        Some(c) => c,
        None => return Err(ConfigError::InvalidRetentionCap),
    };
    if cap > usize::MAX as u64 {
        return Err(ConfigError::InvalidRetentionCap);
    }
    let pairs = match ini_section_lookup(text, "Worlds") {
        Some(p) => p,
        None => return Err(ConfigError::NoWorldsSection),
    };
    let mut worlds: Vec<WorldEntry> = Vec::new();
    let mut i: usize = 0;
    assert(world_map(worlds@) =~= world_table(pair_texts(pairs@).take(0)));
    while i < pairs.len()
        invariant
            i <= pairs@.len(),
            world_names(worlds@).no_duplicates(),
            world_map(worlds@) == world_table(pair_texts(pairs@).take(i as int)),
        decreases pairs.len() - i,
    {
        assert(pair_texts(pairs@).take(i + 1).drop_last() =~= pair_texts(pairs@).take(i as int));
        add_world(&mut worlds, pairs[i].0.clone(), pairs[i].1.clone());
        i = i + 1;
    }
    assert(pair_texts(pairs@).take(i as int) =~= pair_texts(pairs@));
    assert(minutes * 60 <= u64::MAX) by (nonlinear_arith)
        requires
            minutes <= u64::MAX / 60,
    ;
    Ok(Settings { interval_secs: minutes * 60, output_dir, retention_cap: cap as usize, worlds })
}

/// Checks that the directories the settings name exist, given whether the
/// output directory does and whether each world's source directory does, in
/// the order of `settings.worlds`.
pub fn check_directories(settings: &Settings, output_exists: bool, sources_exist: &Vec<bool>) -> (r:
    Result<(), ConfigError>)
    requires
        sources_exist@.len() == settings.worlds@.len(),
    ensures
        !output_exists ==> r == Err::<(), ConfigError>(ConfigError::OutputDirNotFound),
        output_exists && (forall|i: int| 0 <= i < sources_exist@.len() ==> sources_exist@[i]) ==> r
            == Ok::<(), ConfigError>(()),
        output_exists ==> forall|i: usize|
            r == Err::<(), ConfigError>(ConfigError::WorldDirNotFound(i)) <==> (i
                < sources_exist@.len() && !sources_exist@[i as int] && forall|k: int|
                0 <= k < i ==> sources_exist@[k]),
{
    if !output_exists {
        return Err(ConfigError::OutputDirNotFound);
    }
    let mut i: usize = 0;
    while i < sources_exist.len()
        invariant
            output_exists,
            i <= sources_exist@.len(),
            forall|k: int| 0 <= k < i ==> sources_exist@[k],
        decreases sources_exist.len() - i,
    {
        if !sources_exist[i] {
            return Err(ConfigError::WorldDirNotFound(i));
        }
        i = i + 1;
    }
    Ok(())
}

} // verus!
