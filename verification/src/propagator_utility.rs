//! How useful a propagator has been.

use crate::number::Number;
use vstd::prelude::*;

verus! {

/// How the usefulness of one run of a propagator is measured.
#[derive(Clone, Copy, Debug, PartialEq, Eq, Hash, Structural)]
pub enum PropagatorUtilityFormula {
    /// By removed values and conflicts, over time.
    Default,
    /// By conflicts, over time.
    ConflictRate,
    /// By removed values, over time.
    PruningRate,
    /// By conflicts.
    Conflicts,
    /// By removed values.
    Prunings,
}

impl Default for PropagatorUtilityFormula {
    fn default() -> (r: Self)
        ensures
            r == PropagatorUtilityFormula::Default,
    {
        PropagatorUtilityFormula::Default
    }
}

/// The text in lower case, as `str::to_lowercase` gives it.
pub uninterp spec fn lowercase(text: Seq<char>) -> Seq<char>;

/// The ASCII letter in lower case; any other character as it is.
pub open spec fn ascii_lowercase(c: char) -> char {
    if 'A' <= c <= 'Z' {
        (c as u32 + 32) as char
    } else {
        c
    }
}

/// Calls `str::to_lowercase`, which returns the text in lower case according to Unicode. The
/// result depends on the text alone; an ASCII text keeps its length, and its letters `A` to `Z`
/// become `a` to `z`.
#[verifier::external_body]
fn to_lowercase(text: &str) -> (r: String)
    ensures
        r@ == lowercase(text@),
        text.is_ascii() ==> r@ == text@.map_values(|c: char| ascii_lowercase(c)),
{
    text.to_lowercase()
}

/// The text with dashes in place of underscores.
pub open spec fn dashed(text: Seq<char>) -> Seq<char> {
    text.map_values(
        |c: char|
            if c == '_' {
                '-'
            } else {
                c
            },
    )
}

/// Returns whether `text`, with dashes in place of underscores, is `word`.
fn reads_as(text: &str, word: &str) -> (r: bool)
    ensures
        r == (dashed(text@) == word@),
{
    let length: usize = text.unicode_len();
    if length != word.unicode_len() {
        return false;
    }
    let mut i: usize = 0;
    while i < length
        invariant
            i <= length,
            length == text@.len(),
            length == word@.len(),
            forall|j: int| 0 <= j < i ==> dashed(text@)[j] == #[trigger] word@[j],
        decreases length - i,
    {
        let c: char = text.get_char(i);
        let c: char = if c == '_' {
            '-'
        } else {
            c
        };
        if c != word.get_char(i) {
            assert(dashed(text@)[i as int] != word@[i as int]);
            return false;
        }
        i = i + 1;
    }
    assert(dashed(text@) =~= word@);
    true
}

impl PropagatorUtilityFormula {
    /// The formula that a text in lower case, with dashes between its words, stands for.
    pub open spec fn named(text: Seq<char>) -> Option<Self> {
        if text == "default"@ {
            Some(PropagatorUtilityFormula::Default)
        } else if text == "conflict-rate"@ {
            Some(PropagatorUtilityFormula::ConflictRate)
        } else if text == "pruning-rate"@ {
            Some(PropagatorUtilityFormula::PruningRate)
        } else if text == "conflicts"@ {
            Some(PropagatorUtilityFormula::Conflicts)
        } else if text == "prunings"@ {
            Some(PropagatorUtilityFormula::Prunings)
        } else {
            None
        }
    }

    /// Returns the formula that a text in lower case stands for. Its words may be separated by
    /// dashes or underscores.
    pub fn from_lowercase(text: &str) -> (r: Option<Self>)
        ensures
            r == Self::named(dashed(text@)),
    {
        if reads_as(text, "default") {
            Some(PropagatorUtilityFormula::Default)
        } else if reads_as(text, "conflict-rate") {
            Some(PropagatorUtilityFormula::ConflictRate)
        } else if reads_as(text, "pruning-rate") {
            Some(PropagatorUtilityFormula::PruningRate)
        } else if reads_as(text, "conflicts") {
            Some(PropagatorUtilityFormula::Conflicts)
        } else if reads_as(text, "prunings") {
            Some(PropagatorUtilityFormula::Prunings)
        } else {
            None
        }
    }

    /// Returns the formula that a text stands for, whatever the case of its letters. Its words
    /// may be separated by dashes or underscores.
    pub fn from_str(s: &str) -> (r: Option<Self>)
        ensures
            r == Self::named(dashed(lowercase(s@))),
            s.is_ascii() ==> r == Self::named(
                dashed(s@.map_values(|c: char| ascii_lowercase(c))),
            ),
    {
        let text: String = to_lowercase(s);
        Self::from_lowercase(text.as_str())
    }

    /// Returns the formula that a setting stands for, if the setting is there.
    pub fn from_setting(setting: Option<&str>) -> (r: Option<Self>)
        ensures
            r == (match setting {
                Some(text) => Self::named(dashed(lowercase(text@))),
                None => None,
            }),
            setting matches Some(text) ==> text.is_ascii() ==> r == Self::named(
                dashed(text@.map_values(|c: char| ascii_lowercase(c))),
            ),
    {
        match setting {
            Some(text) => Self::from_str(text),
            None => None,
        }
    }

    /// The share that the utility of a propagator keeps with each run, unless it is set.
    pub open spec fn default_decay<N: Number>() -> N {
        N::decimal_spec(8, (-1) as i32)
    }

    /// How many removed values a conflict counts for, unless it is set.
    pub open spec fn default_conflict_weight<N: Number>() -> N {
        N::whole_spec(1000)
    }

    /// Returns the share that the utility of a propagator keeps with each run.
    pub fn decay_or_default<N: Number>(setting: Option<N>) -> (r: N)
        ensures
            r == (match setting {
                Some(decay) => decay,
                None => Self::default_decay(),
            }),
    {
        match setting {
            Some(decay) => decay,
            None => N::decimal(8, -1),
        }
    }

    /// Returns how many removed values a conflict counts for.
    pub fn conflict_weight_or_default<N: Number>(setting: Option<N>) -> (r: N)
        ensures
            r == (match setting {
                Some(weight) => weight,
                None => Self::default_conflict_weight(),
            }),
    {
        match setting {
            Some(weight) => weight,
            None => N::whole(1000),
        }
    }
}

/// What one run of a propagator led to.
#[derive(Clone, Copy, Debug, PartialEq, Eq, Structural)]
pub struct PropagationOutcome {
    /// How long the propagator ran, in whole microseconds.
    pub time_micros: u128,
    /// Whether the propagator found a conflict.
    pub found_conflict: bool,
    /// How many values the propagator removed from domains.
    pub total_removed_values: u32,
}

impl PropagatorUtilityFormula {
    /// The usefulness of one run.
    pub open spec fn run_utility<N: Number>(self, outcome: PropagationOutcome, weight: N) -> N {
        let duration = N::whole_spec(outcome.time_micros).plus_spec(N::whole_spec(1));
        let removed = N::whole_spec(outcome.total_removed_values as u128);
        let conflict = if outcome.found_conflict {
            N::whole_spec(1)
        } else {
            N::whole_spec(0)
        };
        let weighted = if outcome.found_conflict {
            weight
        } else {
            N::whole_spec(0)
        };
        match self {
            PropagatorUtilityFormula::Default => removed.plus_spec(weighted).over_spec(duration),
            PropagatorUtilityFormula::ConflictRate => conflict.over_spec(duration),
            PropagatorUtilityFormula::PruningRate => removed.over_spec(duration),
            PropagatorUtilityFormula::Conflicts => conflict,
            PropagatorUtilityFormula::Prunings => removed,
        }
    }

    /// Returns the usefulness of one run, in which a conflict counts for `weight` removed values.
    pub fn measure<N: Number>(self, outcome: PropagationOutcome, weight: N) -> (r: N)
        ensures
            r == self.run_utility(outcome, weight),
    {
        let conflict: N = if outcome.found_conflict {
            N::whole(1)
        } else {
            N::whole(0)
        };
        match self {
            PropagatorUtilityFormula::Default => {
                let weighted: N = if outcome.found_conflict {
                    weight
                } else {
                    N::whole(0)
                };
                N::whole(outcome.total_removed_values as u128).plus(weighted).over(
                    N::whole(outcome.time_micros).plus(N::whole(1)),
                )
            },
            PropagatorUtilityFormula::ConflictRate => {
                conflict.over(N::whole(outcome.time_micros).plus(N::whole(1)))
            },
            PropagatorUtilityFormula::PruningRate => {
                N::whole(outcome.total_removed_values as u128).over(
                    N::whole(outcome.time_micros).plus(N::whole(1)),
                )
            },
            PropagatorUtilityFormula::Conflicts => conflict,
            PropagatorUtilityFormula::Prunings => N::whole(outcome.total_removed_values as u128),
        }
    }
}

/// Every formula has one name, which is read as that formula, and no other text is read as any.
pub proof fn lemma_names_of_formulas(text: Seq<char>)
    ensures
        PropagatorUtilityFormula::named(text) == Some(PropagatorUtilityFormula::Default) <==> text
            == "default"@,
        PropagatorUtilityFormula::named(text) == Some(PropagatorUtilityFormula::ConflictRate)
            <==> text == "conflict-rate"@,
        PropagatorUtilityFormula::named(text) == Some(PropagatorUtilityFormula::PruningRate)
            <==> text == "pruning-rate"@,
        PropagatorUtilityFormula::named(text) == Some(PropagatorUtilityFormula::Conflicts)
            <==> text == "conflicts"@,
        PropagatorUtilityFormula::named(text) == Some(PropagatorUtilityFormula::Prunings)
            <==> text == "prunings"@,
{
    reveal_strlit("default");
    reveal_strlit("conflict-rate");
    reveal_strlit("pruning-rate");
    reveal_strlit("conflicts");
    reveal_strlit("prunings");
    assert("default"@.len() == 7 && "conflict-rate"@.len() == 13 && "pruning-rate"@.len() == 12);
    assert("conflicts"@.len() == 9 && "prunings"@.len() == 8);
}

/// Underscores are read as dashes and no other character is read differently; of the ASCII
/// characters, only capital letters are different in lower case.
pub proof fn lemma_characters_are_read(text: Seq<char>, i: int, c: char)
    requires
        0 <= i < text.len(),
    ensures
        dashed(text).len() == text.len(),
        text[i] == '_' ==> dashed(text)[i] == '-',
        text[i] != '_' ==> dashed(text)[i] == text[i],
        'A' <= c <= 'Z' ==> ascii_lowercase(c) as int - 'a' as int == c as int - 'A' as int,
        !('A' <= c <= 'Z') ==> ascii_lowercase(c) == c,
{
}

/// By default, the utility of a propagator keeps four fifths with each run, and a conflict counts
/// for a thousand removed values.
pub proof fn lemma_default_parameters<N: Number>()
    ensures
        PropagatorUtilityFormula::default_decay::<N>() == N::decimal_spec(8, (-1) as i32),
        PropagatorUtilityFormula::default_conflict_weight::<N>() == N::whole_spec(1000),
{
}

/// Whether the two characters are the same up to the case of ASCII letters, or both separate
/// words.
pub open spec fn reads_alike(a: char, b: char) -> bool {
    ||| a == b
    ||| 'A' <= a <= 'Z' && b as int == a as int + 32
    ||| 'A' <= b <= 'Z' && a as int == b as int + 32
    ||| (a == '_' || a == '-') && (b == '_' || b == '-')
}

/// ASCII texts that differ only in the case of their letters and in which of the two separators
/// they use stand for the same formula.
pub proof fn lemma_case_and_separators_do_not_matter(a: Seq<char>, b: Seq<char>)
    requires
        a.len() == b.len(),
        forall|i: int| 0 <= i < a.len() ==> #[trigger] reads_alike(a[i], b[i]),
    ensures
        PropagatorUtilityFormula::named(dashed(a.map_values(|c: char| ascii_lowercase(c))))
            == PropagatorUtilityFormula::named(dashed(b.map_values(|c: char| ascii_lowercase(c)))),
{
    let one = dashed(a.map_values(|c: char| ascii_lowercase(c)));
    let other = dashed(b.map_values(|c: char| ascii_lowercase(c)));
    assert forall|i: int| 0 <= i < a.len() implies one[i] == other[i] by {
        assert(reads_alike(a[i], b[i]));
    }
    assert(one =~= other);
}

} // verus!
