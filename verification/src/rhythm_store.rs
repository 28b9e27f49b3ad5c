//! The rhythm pattern *palette*: named patterns, kept in `rhythms.toml`.
//!
//! Nothing plays from here. A progression entry *owns* its rhythm, so assigning one of these clones
//! it into the entry; the library is only the set of starting points.

use vstd::prelude::*;
use vstd::string::*;

use crate::rhythm::{builtin_patterns, builtins, pattern_models, PatternModel, RhythmPattern};
use crate::text::{decimal, decimal_text, lemma_decimal_injective, same_text};

verus! {

/// Every pattern this install knows, in file order.
#[derive(Debug)]
pub struct RhythmStore {
    pub patterns: Vec<RhythmPattern>,
}

/// The first pattern from `i` on with this name.
pub open spec fn named(patterns: Seq<PatternModel>, name: Seq<char>, i: int) -> Option<int>
    decreases patterns.len() - i,
{
    if i < 0 || i >= patterns.len() {
        None
    } else if patterns[i].name == name {
        Some(i)
    } else {
        named(patterns, name, i + 1)
    }
}

/// The patterns with one added: it takes the place of the first with its name, or comes last.
pub open spec fn with_pattern(patterns: Seq<PatternModel>, pattern: PatternModel) -> Seq<PatternModel> {
    match named(patterns, pattern.name, 0) {
        Some(i) => patterns.update(i, pattern),
        None => patterns.push(pattern),
    }
}

/// `base` with a number behind it.
pub open spec fn numbered(base: Seq<char>, n: nat) -> Seq<char> {
    base + " "@ + decimal(n)
}

impl View for RhythmStore {
    type V = Seq<PatternModel>;

    open spec fn view(&self) -> Seq<PatternModel> {
        pattern_models(self.patterns@)
    }
}

impl Default for RhythmStore {
    fn default() -> (r: Self)
        ensures
            r@.len() == 0,
    {
        RhythmStore { patterns: Vec::new() }
    }
}

impl Clone for RhythmStore {
    fn clone(&self) -> (r: Self)
        ensures
            r@ == self@,
    {
        let r: RhythmStore = RhythmStore { patterns: self.patterns.clone() };
        assert(r@ =~= self@);
        r
    }
}

/// The index of the first pattern with this name.
pub fn find_index(patterns: &Vec<RhythmPattern>, name: &str) -> (r: Option<usize>)
    ensures
        match named(pattern_models(patterns@), name@, 0) {
            Some(i) => r matches Some(at) && at == i && at < patterns@.len()
                && patterns@[at as int]@.name == name@,
            None => r is None,
        },
{
    let ghost models = pattern_models(patterns@);
    for i in 0..patterns.len()
        invariant
            models == pattern_models(patterns@),
            named(models, name@, 0) == named(models, name@, i as int),
    {
        assert(models[i as int] == patterns@[i as int]@);
        if same_text(patterns[i].name.as_str(), name) {
            return Some(i);
        }
    }
    None
}

impl RhythmStore {
    /// The library of a fresh install.
    pub fn built_in() -> (r: Self)
        ensures
            r@ == builtins(),
    {
        RhythmStore { patterns: builtin_patterns() }
    }

    /// Add a pattern, replacing any existing one with the same name.
    pub fn add(&mut self, pattern: RhythmPattern)
        ensures
            final(self)@ == with_pattern(old(self)@, pattern@),
    {
        let ghost before = self@;
        match find_index(&self.patterns, pattern.name.as_str()) {
            Some(i) => {
                self.patterns.set(i, pattern);
            },
            None => {
                self.patterns.push(pattern);
            },
        }
        assert(self@ =~= with_pattern(before, pattern@));
    }

    pub fn find(&self, name: &str) -> (r: Option<&RhythmPattern>)
        ensures
            match named(self@, name@, 0) {
                Some(i) => r matches Some(p) && p@ == self@[i],
                None => r is None,
            },
    {
        match find_index(&self.patterns, name) {
            Some(i) => Some(&self.patterns[i]),
            None => None,
        }
    }

    /// A unique name derived from `base`, so saving over an existing pattern never silently merges
    /// two takes: `base` itself, or `base` with the first number from 2 on that makes it unique.
    pub fn unique_name(&self, base: &str) -> (r: String)
        ensures
            named(self@, r@, 0) is None,
            named(self@, base@, 0) is None ==> r@ == base@,
            named(self@, base@, 0) is Some ==> exists|n: nat|
                n >= 2 && r@ == #[trigger] numbered(base@, n) && forall|m: nat|
                    2 <= m < n ==> named(self@, #[trigger] numbered(base@, m), 0) is Some,
    {
        if self.find(base).is_none() {
            return base.to_owned();
        }
        let mut n: u128 = 2;
        assert(self@.len() == self.patterns.len());
        loop
            invariant
                n >= 2,
                n - 2 <= self@.len(),
                self@.len() <= usize::MAX,
                named(self@, base@, 0) is Some,
                forall|m: nat| 2 <= m < n ==> named(self@, #[trigger] numbered(base@, m), 0) is Some,
            decreases self@.len() + 3 - n,
        {
            let mut candidate: String = base.to_owned();
            candidate.append(" ");
            candidate.append(decimal_text(n).as_str());
            assert(candidate@ =~= numbered(base@, n as nat));
            if self.find(candidate.as_str()).is_none() {
                return candidate;
            }
            proof {
                assert forall|m: nat| 2 <= m < n + 1 implies named(
                    self@,
                    #[trigger] numbered(base@, m),
                    0,
                ) is Some by {
                    if m == n {
                    }
                }
                lemma_enough_names(self@, base@, (n - 1) as nat);
            }
            n = n + 1;
        }
    }
}

/// Where the library lives, relative to the working directory.
pub fn default_path() -> (r: String)
    ensures
        r@ == "rhythms.toml"@,
{
    "rhythms.toml".to_owned()
}

/// What a name that was found is found at.
pub proof fn lemma_named(patterns: Seq<PatternModel>, name: Seq<char>, i: int)
    requires
        0 <= i,
    ensures
        named(patterns, name, i) matches Some(k) ==> i <= k < patterns.len() && patterns[k].name
            == name,
        named(patterns, name, i) is None ==> forall|k: int|
            i <= k < patterns.len() ==> (#[trigger] patterns[k]).name != name,
        named(patterns, name, i) matches Some(k) ==> forall|j: int|
            i <= j < k ==> (#[trigger] patterns[j]).name != name,
    decreases patterns.len() - i,
{
    if i < patterns.len() && patterns[i].name != name {
        lemma_named(patterns, name, i + 1);
    }
}

/// The first `count` numbered names take at most as many patterns as there are.
proof fn lemma_enough_names(patterns: Seq<PatternModel>, base: Seq<char>, count: nat)
    requires
        forall|m: nat|
            2 <= m < count + 2 ==> named(patterns, #[trigger] numbered(base, m), 0) is Some,
    ensures
        count <= patterns.len(),
{
    let candidates = Seq::new(count, |i: int| numbered(base, (i + 2) as nat));
    let names = patterns.map_values(|p: PatternModel| p.name);
    assert(candidates.no_duplicates()) by {
        assert forall|i: int, j: int|
            0 <= i < candidates.len() && 0 <= j < candidates.len() && i != j implies candidates[i]
            != candidates[j] by {
            if candidates[i] == candidates[j] {
                lemma_numbered_injective(base, (i + 2) as nat, (j + 2) as nat);
            }
        }
    }
    assert forall|c: Seq<char>| candidates.to_set().contains(c) implies names.to_set().contains(
        c,
    ) by {
        let i = choose|i: int| 0 <= i < candidates.len() && candidates[i] == c;
        assert(c == numbered(base, (i + 2) as nat));
        lemma_named(patterns, c, 0);
        let k = named(patterns, c, 0)->0;
        assert(names[k] == c);
    }
    candidates.unique_seq_to_set();
    names.lemma_cardinality_of_set();
    vstd::set_lib::lemma_len_subset(candidates.to_set(), names.to_set());
}

proof fn lemma_numbered_injective(base: Seq<char>, m: nat, n: nat)
    requires
        numbered(base, m) == numbered(base, n),
    ensures
        m == n,
{
    let front = base + " "@;
    assert(numbered(base, m).subrange(front.len() as int, numbered(base, m).len() as int)
        =~= decimal(m));
    assert(numbered(base, n).subrange(front.len() as int, numbered(base, n).len() as int)
        =~= decimal(n));
    lemma_decimal_injective(m, n);
}

// -----------------------------------------------------------------------------
// Laws
// -----------------------------------------------------------------------------

/// A pattern that was added is the one that is found under its name.
pub proof fn law_added_patterns_are_found(patterns: Seq<PatternModel>, pattern: PatternModel)
    ensures
        named(with_pattern(patterns, pattern), pattern.name, 0) matches Some(i) && with_pattern(
            patterns,
            pattern,
        )[i] == pattern,
{
    let after = with_pattern(patterns, pattern);
    lemma_named(patterns, pattern.name, 0);
    lemma_named(after, pattern.name, 0);
    match named(patterns, pattern.name, 0) {
        Some(i) => {
            assert(after[i].name == pattern.name);
            let k = named(after, pattern.name, 0)->0;
            if k < i {
                assert(patterns[k].name != pattern.name);
            }
            assert(k == i) by {
                if i < k {
                    assert(after[i].name != pattern.name);
                }
            }
        },
        None => {
            let n = patterns.len() as int;
            assert(after[n].name == pattern.name);
            let k = named(after, pattern.name, 0)->0;
            if k < n {
                assert(patterns[k].name != pattern.name);
            }
        },
    }
}

/// Adding a pattern leaves every other name with what it had.
pub proof fn law_adding_keeps_the_others(patterns: Seq<PatternModel>, pattern: PatternModel, i: int)
    requires
        0 <= i < patterns.len(),
        patterns[i].name != pattern.name,
    ensures
        with_pattern(patterns, pattern)[i] == patterns[i],
{
    lemma_named(patterns, pattern.name, 0);
}

/// Adding keeps names unique: it never gives a name to a second pattern.
pub proof fn law_names_stay_unique(patterns: Seq<PatternModel>, pattern: PatternModel)
    requires
        forall|i: int, j: int|
            0 <= i < j < patterns.len() ==> (#[trigger] patterns[i]).name != (#[trigger] patterns[j]).name,
    ensures
        forall|i: int, j: int|
            0 <= i < j < with_pattern(patterns, pattern).len() ==> (#[trigger] with_pattern(
                patterns,
                pattern,
            )[i]).name != (#[trigger] with_pattern(patterns, pattern)[j]).name,
{
    lemma_named(patterns, pattern.name, 0);
    let after = with_pattern(patterns, pattern);
    assert forall|i: int, j: int| 0 <= i < j < after.len() implies (#[trigger] after[i]).name != (
    #[trigger] after[j]).name by {
        if i < patterns.len() {
            assert(patterns[i].name == patterns[i].name);
        }
        if j < patterns.len() {
            assert(patterns[i].name != patterns[j].name);
        }
    }
}

/// Adding a pattern adds at most one: it takes the place of the first with its name, or comes last.
pub proof fn law_adding_replaces_or_appends(patterns: Seq<PatternModel>, pattern: PatternModel, i: int)
    requires
        0 <= i < patterns.len(),
    ensures
        (forall|j: int| 0 <= j < patterns.len() ==> (#[trigger] patterns[j]).name != pattern.name)
            ==> with_pattern(patterns, pattern) == patterns.push(pattern),
        patterns[i].name == pattern.name && (forall|j: int|
            0 <= j < i ==> (#[trigger] patterns[j]).name != pattern.name) ==> with_pattern(
            patterns,
            pattern,
        ) == patterns.update(i, pattern),
{
    lemma_named(patterns, pattern.name, 0);
    if patterns[i].name == pattern.name {
        match named(patterns, pattern.name, 0) {
            Some(k) => {
                if i < k {
                    assert(patterns[i].name != pattern.name);
                }
            },
            None => {
                assert(patterns[i].name != pattern.name);
            },
        }
    }
}

} // verus!
