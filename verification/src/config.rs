//! The switches of a build, as its environment asks for them.
//!
//! A build is checked, published, or neither. A checked build does extra
//! checking at run time; a published build has to be optimized and cannot be
//! checked.

use vstd::prelude::*;
use vstd::string::StringExecFns;

verus! {

/// A switch by its name.
pub struct Cfg(pub(crate) &'static str);

impl View for Cfg {
    type V = Seq<char>;

    closed spec fn view(&self) -> Seq<char> {
        self.0@
    }
}

/// What a build finds in its environment, variable by variable.
pub struct BuildEnv {
    /// `TARGET`
    pub target: Option<String>,
    /// `PROFILE`
    pub profile: Option<String>,
    /// `SQUIRRELJSON_CHECKED`
    pub checked: Option<String>,
    /// `SQUIRRELJSON_PUBLISHED`
    pub published: Option<String>,
}

/// The switches that are on.
#[derive(Debug)]
pub struct Cfgs {
    enabled: Vec<String>,
}

impl View for Cfgs {
    type V = Set<Seq<char>>;

    closed spec fn view(&self) -> Set<Seq<char>> {
        Set::new(|name: Seq<char>| holds(self.enabled@, name))
    }
}

/// Whether one of the strings is the name.
pub open spec fn holds(names: Seq<String>, name: Seq<char>) -> bool {
    exists|i: int| 0 <= i < names.len() && (#[trigger] names[i])@ == name
}

/// The switches with the one that a variable of the given value asks for:
/// none if it has another value or is not set.
pub open spec fn with_value(
    on: Set<Seq<char>>,
    cfg: Seq<char>,
    found: Option<String>,
    value: Seq<char>,
) -> Set<Seq<char>> {
    match found {
        Some(v) => if v@ == value {
            on.insert(cfg)
        } else {
            on
        },
        None => on,
    }
}

/// The switches after a variable that is named after a switch was looked
/// at: set to `0` it turns the switch off, set to anything else it turns
/// the switch on, and not set it leaves the switch as it is.
pub open spec fn with_present(on: Set<Seq<char>>, cfg: Seq<char>, found: Option<String>) -> Set<
    Seq<char>,
> {
    match found {
        Some(v) => if v@ != "0"@ {
            on.insert(cfg)
        } else {
            on.remove(cfg)
        },
        None => on,
    }
}

/// The switches that an environment asks for, on a compiler that takes
/// unstable features or on one that does not.
pub open spec fn enabled_by(env: BuildEnv, unstable: bool) -> Set<Seq<char>> {
    let on = with_value(Set::empty(), "wasm"@, env.target, "wasm32-unknown-unknown"@);
    let on = with_value(on, "release"@, env.profile, "release"@);
    let on = with_value(on, "debug"@, env.profile, "debug"@);
    let on = if unstable {
        on.insert("unstable"@)
    } else {
        on
    };
    let on = with_present(on, "checked"@, env.checked);
    with_present(on, "published"@, env.published)
}

/// Whether a line tells a build to turn on one of the switches that are
/// on.
pub open spec fn cfg_line(on: Set<Seq<char>>, line: Seq<char>) -> bool {
    exists|n: Seq<char>| on.contains(n) && line == "cargo:rustc-cfg="@ + n
}

/// Whether the switches can be handed to a build: a published build is not
/// checked, and is optimized.
pub open spec fn consistent(on: Set<Seq<char>>) -> bool {
    on.contains("published"@) ==> !on.contains("checked"@) && on.contains("release"@)
}

/// What stands behind a prefix of a text is the rest of the text.
pub proof fn lemma_behind_prefix(prefix: Seq<char>, rest: Seq<char>)
    ensures
        (prefix + rest).subrange(prefix.len() as int, (prefix + rest).len() as int) == rest,
{
    assert((prefix + rest).subrange(prefix.len() as int, (prefix + rest).len() as int) =~= rest);
}

/// `version_check::is_feature_flaggable`: whether the compiler of this
/// build takes unstable features, or `false` where that cannot be told.
/// The answer depends on the compiler that is found, so nothing is said of
/// it.
#[verifier::external_body]
fn unstable() -> (r: bool) {
    version_check::is_feature_flaggable().unwrap_or(false)
}

/// Whether one of the strings is the name.
fn contains(names: &Vec<String>, name: &String) -> (r: bool)
    ensures
        r == holds(names@, name@),
{
    let mut i: usize = 0;
    while i < names.len()
        invariant
            i <= names.len(),
            forall|j: int| 0 <= j < i ==> (#[trigger] names@[j])@ != name@,
        decreases names.len() - i,
    {
        if names[i] == *name {
            return true;
        }
        i += 1;
    }
    false
}

/// Adds the name to the strings.
fn insert(names: &mut Vec<String>, name: String)
    ensures
        final(names)@ == old(names)@.push(name),
        forall|n: Seq<char>| #[trigger] holds(final(names)@, n) == (n == name@ || holds(old(names)@, n)),
{
    let ghost before = names@;
    let ghost added = name@;
    names.push(name);
    assert forall|n: Seq<char>| #[trigger] holds(names@, n) == (n == added || holds(before, n)) by {
        if holds(before, n) {
            let i = choose|i: int| 0 <= i < before.len() && (#[trigger] before[i])@ == n;
            assert(names@[i]@ == n);
        }
        if n == added {
            assert(names@[before.len() as int]@ == n);
        }
    }
}

/// Takes the name from the strings.
fn remove(names: &mut Vec<String>, name: &String)
    ensures
        forall|n: Seq<char>| #[trigger] holds(final(names)@, n) == (n != name@ && holds(old(names)@, n)),
{
    let ghost before = names@;
    let mut kept: Vec<String> = Vec::new();
    let mut i: usize = 0;
    while i < names.len()
        invariant
            i <= names.len(),
            names@ == before,
            forall|n: Seq<char>|
                #[trigger] holds(kept@, n) == (n != name@ && holds(before.subrange(0, i as int), n)),
        decreases names.len() - i,
    {
        let ghost kept_before = kept@;
        let ghost seen = before.subrange(0, i as int);
        let ghost seen_after = before.subrange(0, i + 1);
        if !(names[i] == *name) {
            kept.push(names[i].clone());
        }
        assert forall|n: Seq<char>| #[trigger] holds(kept@, n) == (n != name@ && holds(seen_after, n)) by {
            if holds(seen_after, n) {
                let j = choose|j: int| 0 <= j < seen_after.len() && (#[trigger] seen_after[j])@ == n;
                if j < i {
                    assert(seen[j]@ == n);
                }
            }
            if holds(seen, n) {
                let j = choose|j: int| 0 <= j < seen.len() && (#[trigger] seen[j])@ == n;
                assert(seen_after[j]@ == n);
            }
            if holds(kept_before, n) {
                let j = choose|j: int| 0 <= j < kept_before.len() && (#[trigger] kept_before[j])@
                    == n;
                assert(kept@[j]@ == n);
            }
            if holds(kept@, n) && !holds(kept_before, n) {
                let j = choose|j: int| 0 <= j < kept@.len() && (#[trigger] kept@[j])@ == n;
                assert(j == kept_before.len());
                assert(seen_after[i as int]@ == n);
            }
            if n != name@ && before[i as int]@ == n {
                assert(kept@[kept_before.len() as int]@ == n);
            }
        }
        i += 1;
    }
    assert(before.subrange(0, i as int) =~= before);
    *names = kept;
}

/// Turns a switch on if the variable that was looked at has the given
/// value.
pub(crate) fn cfg_from_env_value(
    cfg: &str,
    found: &Option<String>,
    value: &str,
    enabled: &mut Vec<String>,
)
    ensures
        forall|n: Seq<char>|
            #[trigger] holds(final(enabled)@, n) == with_value(
                Set::new(|m: Seq<char>| holds(old(enabled)@, m)),
                cfg@,
                *found,
                value@,
            ).contains(n),
{
    if let Some(cargo_cfg) = found {
        if *cargo_cfg == String::from_str(value) {
            insert(enabled, String::from_str(cfg));
        }
    }
}

/// Turns a switch on or off as the variable that is named after it asks.
pub(crate) fn cfg_from_env_present(cfg: &str, found: &Option<String>, enabled: &mut Vec<String>)
    ensures
        forall|n: Seq<char>|
            #[trigger] holds(final(enabled)@, n) == with_present(
                Set::new(|m: Seq<char>| holds(old(enabled)@, m)),
                cfg@,
                *found,
            ).contains(n),
{
    if let Some(env_cfg) = found {
        if !(*env_cfg == String::from_str("0")) {
            insert(enabled, String::from_str(cfg));
        } else {
            remove(enabled, &String::from_str(cfg));
        }
    }
}

impl Cfgs {
    /// The switch of a checked build, which does extra checking and suits
    /// tests and fuzzing.
    pub fn checked() -> (cfg: Cfg)
        ensures
            cfg@ == "checked"@,
    {
        Cfg("checked")
    }

    /// The switch of a published build, which is checked at build time to
    /// be fit for release.
    pub fn published() -> (cfg: Cfg)
        ensures
            cfg@ == "published"@,
    {
        Cfg("published")
    }

    /// The switches that the environment asks for, on the compiler that is
    /// found.
    pub fn new(env: &BuildEnv) -> (r: Self)
        ensures
            r@ == enabled_by(*env, false) || r@ == enabled_by(*env, true),
    {
        Cfgs::from_env(env, unstable())
    }

    /// The switches that the environment asks for, on a compiler that takes
    /// unstable features or on one that does not.
    pub fn from_env(env: &BuildEnv, unstable: bool) -> (r: Self)
        ensures
            r@ == enabled_by(*env, unstable),
    {
        let mut enabled: Vec<String> = Vec::new();
        assert(Set::new(|m: Seq<char>| holds(enabled@, m)) =~= Set::empty());
        cfg_from_env_value("wasm", &env.target, "wasm32-unknown-unknown", &mut enabled);
        let ghost on1 = Set::new(|m: Seq<char>| holds(enabled@, m));
        assert(on1 =~= with_value(Set::empty(), "wasm"@, env.target, "wasm32-unknown-unknown"@));
        cfg_from_env_value("release", &env.profile, "release", &mut enabled);
        let ghost on2 = Set::new(|m: Seq<char>| holds(enabled@, m));
        assert(on2 =~= with_value(on1, "release"@, env.profile, "release"@));
        cfg_from_env_value("debug", &env.profile, "debug", &mut enabled);
        let ghost on3 = Set::new(|m: Seq<char>| holds(enabled@, m));
        assert(on3 =~= with_value(on2, "debug"@, env.profile, "debug"@));
        if unstable {
            insert(&mut enabled, String::from_str("unstable"));
        }
        let ghost on4 = Set::new(|m: Seq<char>| holds(enabled@, m));
        assert(on4 =~= if unstable {
            on3.insert("unstable"@)
        } else {
            on3
        });
        cfg_from_env_present("checked", &env.checked, &mut enabled);
        let ghost on5 = Set::new(|m: Seq<char>| holds(enabled@, m));
        assert(on5 =~= with_present(on4, "checked"@, env.checked));
        cfg_from_env_present("published", &env.published, &mut enabled);
        let ghost on6 = Set::new(|m: Seq<char>| holds(enabled@, m));
        assert(on6 =~= with_present(on5, "published"@, env.published));
        Cfgs { enabled }
    }

    /// Whether the build is for WebAssembly.
    pub fn is_wasm(&self) -> (r: bool)
        ensures
            r == self@.contains("wasm"@),
    {
        contains(&self.enabled, &String::from_str("wasm"))
    }

    /// Whether the build is a debug build.
    pub fn is_debug(&self) -> (r: bool)
        ensures
            r == self@.contains("debug"@),
    {
        contains(&self.enabled, &String::from_str("debug"))
    }

    /// Whether the build is optimized.
    pub fn is_release(&self) -> (r: bool)
        ensures
            r == self@.contains("release"@),
    {
        contains(&self.enabled, &String::from_str("release"))
    }

    /// Whether the build is checked.
    pub fn is_checked(&self) -> (r: bool)
        ensures
            r == self@.contains("checked"@),
    {
        contains(&self.enabled, &String::from_str("checked"))
    }

    /// Whether the build is published.
    pub fn is_publish(&self) -> (r: bool)
        ensures
            r == self@.contains("published"@),
    {
        contains(&self.enabled, &String::from_str("published"))
    }

    /// Whether the compiler takes unstable features.
    pub fn is_unstable(&self) -> (r: bool)
        ensures
            r == self@.contains("unstable"@),
    {
        contains(&self.enabled, &String::from_str("unstable"))
    }

    /// Whether the switch is on.
    pub fn is_enabled(&self, cfg: Cfg) -> (r: bool)
        ensures
            r == self@.contains(cfg@),
    {
        contains(&self.enabled, &String::from_str(cfg.0))
    }

    /// Turns the switch on.
    pub fn enable(&mut self, cfg: Cfg)
        ensures
            final(self)@ == old(self)@.insert(cfg@),
    {
        insert(&mut self.enabled, String::from_str(cfg.0));
        assert(self@ =~= old(self)@.insert(cfg@));
    }

    /// Whether the switches can be handed to a build.
    pub fn is_consistent(&self) -> (r: bool)
        ensures
            r == consistent(self@),
    {
        !self.is_publish() || (!self.is_checked() && self.is_release())
    }

    /// What a build is told: a line for each switch that is on, none twice
    /// and no other, and behind them a line that has the build run again
    /// when its script changes.
    pub fn apply(self) -> (lines: Vec<String>)
        requires
            consistent(self@),
        ensures
            lines@.len() >= 1,
            lines@.last()@ == "cargo:rerun-if-changed=build.rs"@,
            forall|n: Seq<char>|
                self@.contains(n) == holds(lines@.drop_last(), "cargo:rustc-cfg="@ + n),
            forall|i: int, j: int|
                0 <= i < j < lines@.len() - 1 ==> (#[trigger] lines@[i])@ != (
                #[trigger] lines@[j])@,
            forall|i: int| 0 <= i < lines@.len() - 1 ==> cfg_line(self@, (#[trigger] lines@[i])@),
    {
        let ghost prefix = "cargo:rustc-cfg="@;
        let mut names: Vec<String> = Vec::new();
        let mut lines: Vec<String> = Vec::new();
        let mut i: usize = 0;
        while i < self.enabled.len()
            invariant
                i <= self.enabled.len(),
                prefix == "cargo:rustc-cfg="@,
                lines@.len() == names@.len(),
                forall|k: int| 0 <= k < lines@.len() ==> (#[trigger] lines@[k])@ == prefix + names@[k]@,
                forall|n: Seq<char>|
                    #[trigger] holds(names@, n) == holds(self.enabled@.subrange(0, i as int), n),
                forall|a: int, b: int|
                    0 <= a < b < names@.len() ==> (#[trigger] names@[a])@ != (
                    #[trigger] names@[b])@,
            decreases self.enabled.len() - i,
        {
            let ghost seen = self.enabled@.subrange(0, i as int);
            let ghost seen_after = self.enabled@.subrange(0, i + 1);
            if !contains(&names, &self.enabled[i]) {
                let ghost before = names@;
                let mut line = String::from_str("cargo:rustc-cfg=");
                line.append(self.enabled[i].as_str());
                lines.push(line);
                insert(&mut names, self.enabled[i].clone());
                assert forall|a: int, b: int| 0 <= a < b < names@.len() implies (
                #[trigger] names@[a])@ != (#[trigger] names@[b])@ by {
                    if b == before.len() {
                        assert(before[a]@ != names@[b]@);
                    }
                }
            }
            assert forall|n: Seq<char>| #[trigger] holds(names@, n) == holds(seen_after, n) by {
                if holds(seen_after, n) {
                    let j = choose|j: int|
                        0 <= j < seen_after.len() && (#[trigger] seen_after[j])@ == n;
                    if j < i {
                        assert(seen[j]@ == n);
                    }
                }
                if holds(seen, n) {
                    let j = choose|j: int| 0 <= j < seen.len() && (#[trigger] seen[j])@ == n;
                    assert(seen_after[j]@ == n);
                }
                if n == self.enabled@[i as int]@ {
                    assert(seen_after[i as int]@ == n);
                }
            }
            i += 1;
        }
        assert(self.enabled@.subrange(0, i as int) =~= self.enabled@);
        let ghost cfgs = lines@;
        lines.push(String::from_str("cargo:rerun-if-changed=build.rs"));
        proof {
            assert(lines@.drop_last() =~= cfgs);
            assert forall|n: Seq<char>| self@.contains(n) == holds(cfgs, prefix + n) by {
                if holds(names@, n) {
                    let k = choose|k: int| 0 <= k < names@.len() && (#[trigger] names@[k])@ == n;
                    assert(cfgs[k]@ == prefix + n);
                }
                if holds(cfgs, prefix + n) {
                    let k = choose|k: int| 0 <= k < cfgs.len() && (#[trigger] cfgs[k])@ == prefix + n;
                    lemma_behind_prefix(prefix, names@[k]@);
                    lemma_behind_prefix(prefix, n);
                    assert(names@[k]@ == n);
                }
            }
            assert forall|a: int, b: int| 0 <= a < b < lines@.len() - 1 implies (
            #[trigger] lines@[a])@ != (#[trigger] lines@[b])@ by {
                lemma_behind_prefix(prefix, names@[a]@);
                lemma_behind_prefix(prefix, names@[b]@);
            }
            assert forall|k: int| 0 <= k < lines@.len() - 1 implies cfg_line(
                self@,
                (#[trigger] lines@[k])@,
            ) by {
                assert(holds(names@, names@[k]@));
                assert(self@.contains(names@[k]@));
                assert(lines@[k]@ == prefix + names@[k]@);
            }
        }
        lines
    }
}

} // verus!
