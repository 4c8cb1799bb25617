//! Shared domain enums: quiz ratings, difficulties, traversal strategies and
//! quiz answer modes, with their wire spellings.
use crate::error::Error;
use crate::ids::str_eq;
use vstd::prelude::*;

verus! {

/// FSRS grade for a quiz answer. The integer encodings follow the FSRS
/// convention (Again=1, Hard=2, Good=3, Easy=4).
#[derive(Debug, Clone, Copy, PartialEq, Eq, Structural)]
pub enum Rating {
    Again,
    Hard,
    Good,
    Easy,
}

/// Integer encoding of a rating.
pub open spec fn rating_code(r: Rating) -> i64 {
    match r {
        Rating::Again => 1,
        Rating::Hard => 2,
        Rating::Good => 3,
        Rating::Easy => 4,
    }
}

/// The rating with integer encoding `v`, if any.
pub open spec fn rating_of_code(v: i64) -> Option<Rating> {
    if v == 1 {
        Some(Rating::Again)
    } else if v == 2 {
        Some(Rating::Hard)
    } else if v == 3 {
        Some(Rating::Good)
    } else if v == 4 {
        Some(Rating::Easy)
    } else {
        None
    }
}

/// Lowercase wire spelling of a rating.
pub open spec fn rating_word(r: Rating) -> Seq<char> {
    match r {
        Rating::Again => seq!['a', 'g', 'a', 'i', 'n'],
        Rating::Hard => seq!['h', 'a', 'r', 'd'],
        Rating::Good => seq!['g', 'o', 'o', 'd'],
        Rating::Easy => seq!['e', 'a', 's', 'y'],
    }
}

impl Rating {
    /// All ratings except `Again` count as a correct answer.
    pub fn is_correct(self) -> (r: bool)
        ensures
            r == (self != Rating::Again),
    {
        !matches!(self, Rating::Again)
    }

    /// The integer encoding (Again=1 … Easy=4).
    pub fn to_int(self) -> (v: i64)
        ensures
            v == rating_code(self),
    {
        match self {
            Rating::Again => 1,
            Rating::Hard => 2,
            Rating::Good => 3,
            Rating::Easy => 4,
        }
    }

    /// Decodes an integer rating; values outside 1..=4 are rejected with
    /// `Error::InvalidRating`.
    pub fn try_from_int(v: i64) -> (r: Result<Rating, Error>)
        ensures
            match rating_of_code(v) {
                Some(x) => r == Ok::<Rating, Error>(x),
                None => r == Err::<Rating, Error>(Error::InvalidRating(v)),
            },
    {
        match v {
            1 => Ok(Rating::Again),
            2 => Ok(Rating::Hard),
            3 => Ok(Rating::Good),
            4 => Ok(Rating::Easy),
            other => Err(Error::InvalidRating(other)),
        }
    }

    /// The lowercase spelling (`again`, `hard`, `good`, `easy`).
    pub fn as_str(self) -> (s: &'static str)
        ensures
            s@ == rating_word(self),
    {
        match self {
            Rating::Again => {
                proof {
                    reveal_strlit("again");
                }
                "again"
            },
            Rating::Hard => {
                proof {
                    reveal_strlit("hard");
                }
                "hard"
            },
            Rating::Good => {
                proof {
                    reveal_strlit("good");
                }
                "good"
            },
            Rating::Easy => {
                proof {
                    reveal_strlit("easy");
                }
                "easy"
            },
        }
    }

    /// Parses the lowercase spelling; anything else is `None`.
    pub fn parse(s: &str) -> (r: Option<Rating>)
        ensures
            match r {
                Some(x) => rating_word(x) == s@,
                None => forall|x: Rating| rating_word(x) != s@,
            },
    {
        if str_eq(s, Rating::Again.as_str()) {
            Some(Rating::Again)
        } else if str_eq(s, Rating::Hard.as_str()) {
            Some(Rating::Hard)
        } else if str_eq(s, Rating::Good.as_str()) {
            Some(Rating::Good)
        } else if str_eq(s, Rating::Easy.as_str()) {
            Some(Rating::Easy)
        } else {
            None
        }
    }
}

/// Quiz difficulty. Every atom has at most one quiz per difficulty.
#[derive(Debug, Clone, Copy, PartialEq, Eq, Structural)]
pub enum Difficulty {
    Easy,
    Medium,
    Hard,
}

/// Lowercase wire spelling of a difficulty.
pub open spec fn difficulty_word(d: Difficulty) -> Seq<char> {
    match d {
        Difficulty::Easy => seq!['e', 'a', 's', 'y'],
        Difficulty::Medium => seq!['m', 'e', 'd', 'i', 'u', 'm'],
        Difficulty::Hard => seq!['h', 'a', 'r', 'd'],
    }
}

impl Difficulty {
    pub fn as_str(self) -> (s: &'static str)
        ensures
            s@ == difficulty_word(self),
    {
        match self {
            Difficulty::Easy => {
                proof {
                    reveal_strlit("easy");
                }
                "easy"
            },
            Difficulty::Medium => {
                proof {
                    reveal_strlit("medium");
                }
                "medium"
            },
            Difficulty::Hard => {
                proof {
                    reveal_strlit("hard");
                }
                "hard"
            },
        }
    }

    /// Parses `easy` / `medium` / `hard`; anything else is
    /// `Error::InvalidDifficulty` carrying the input.
    pub fn parse(s: &str) -> (r: Result<Difficulty, Error>)
        ensures
            match r {
                Ok(d) => difficulty_word(d) == s@,
                Err(e) => (forall|d: Difficulty| difficulty_word(d) != s@) && (e matches Error::InvalidDifficulty(t) && t@ == s@),
            },
    {
        if str_eq(s, Difficulty::Easy.as_str()) {
            Ok(Difficulty::Easy)
        } else if str_eq(s, Difficulty::Medium.as_str()) {
            Ok(Difficulty::Medium)
        } else if str_eq(s, Difficulty::Hard.as_str()) {
            Ok(Difficulty::Hard)
        } else {
            Err(Error::InvalidDifficulty(crate::ids::to_owned(s)))
        }
    }
}

/// How `mt path next` walks toward a path's targets.
#[derive(Debug, Clone, Copy, PartialEq, Eq, Structural)]
pub enum Strategy {
    BottomUp,
    TopDown,
}

/// Storage spelling of a strategy.
pub open spec fn strategy_word(s: Strategy) -> Seq<char> {
    match s {
        Strategy::BottomUp => seq!['b', 'o', 't', 't', 'o', 'm', '_', 'u', 'p'],
        Strategy::TopDown => seq!['t', 'o', 'p', '_', 'd', 'o', 'w', 'n'],
    }
}

/// CLI spelling of a strategy (hyphen instead of underscore).
pub open spec fn strategy_cli_word(s: Strategy) -> Seq<char> {
    match s {
        Strategy::BottomUp => seq!['b', 'o', 't', 't', 'o', 'm', '-', 'u', 'p'],
        Strategy::TopDown => seq!['t', 'o', 'p', '-', 'd', 'o', 'w', 'n'],
    }
}

impl Default for Strategy {
    fn default() -> (s: Strategy)
        ensures
            s == Strategy::BottomUp,
    {
        Strategy::BottomUp
    }
}

impl Strategy {
    pub fn as_str(self) -> (s: &'static str)
        ensures
            s@ == strategy_word(self),
    {
        match self {
            Strategy::BottomUp => {
                proof {
                    reveal_strlit("bottom_up");
                }
                "bottom_up"
            },
            Strategy::TopDown => {
                proof {
                    reveal_strlit("top_down");
                }
                "top_down"
            },
        }
    }

    /// Accepts both the storage spelling (`bottom_up`) and the CLI spelling
    /// (`bottom-up`); anything else is `Error::InvalidStrategy`.
    pub fn parse(s: &str) -> (r: Result<Strategy, Error>)
        ensures
            match r {
                Ok(x) => strategy_word(x) == s@ || strategy_cli_word(x) == s@,
                Err(e) => (forall|x: Strategy|
                    strategy_word(x) != s@ && strategy_cli_word(x) != s@) && (e matches Error::InvalidStrategy(t) && t@ == s@),
            },
    {
        proof {
            reveal_strlit("bottom-up");
            reveal_strlit("top-down");
            assert("bottom-up"@ =~= strategy_cli_word(Strategy::BottomUp));
            assert("top-down"@ =~= strategy_cli_word(Strategy::TopDown));
        }
        if str_eq(s, Strategy::BottomUp.as_str()) || str_eq(s, "bottom-up") {
            Ok(Strategy::BottomUp)
        } else if str_eq(s, Strategy::TopDown.as_str()) || str_eq(s, "top-down") {
            Ok(Strategy::TopDown)
        } else {
            Err(Error::InvalidStrategy(crate::ids::to_owned(s)))
        }
    }
}

/// Quiz answer mode.
#[derive(Debug, Clone, Copy, PartialEq, Eq, Structural)]
pub enum QuizType {
    FreeText,
    MultipleChoice,
}

/// Storage spelling of a quiz type.
pub open spec fn quiz_type_word(t: QuizType) -> Seq<char> {
    match t {
        QuizType::FreeText => seq!['f', 'r', 'e', 'e', '_', 't', 'e', 'x', 't'],
        QuizType::MultipleChoice => seq![
            'm',
            'u',
            'l',
            't',
            'i',
            'p',
            'l',
            'e',
            '_',
            'c',
            'h',
            'o',
            'i',
            'c',
            'e',
        ],
    }
}

impl Default for QuizType {
    fn default() -> (t: QuizType)
        ensures
            t == QuizType::FreeText,
    {
        QuizType::FreeText
    }
}

impl QuizType {
    pub fn as_str(self) -> (s: &'static str)
        ensures
            s@ == quiz_type_word(self),
    {
        match self {
            QuizType::FreeText => {
                proof {
                    reveal_strlit("free_text");
                }
                "free_text"
            },
            QuizType::MultipleChoice => {
                proof {
                    reveal_strlit("multiple_choice");
                }
                "multiple_choice"
            },
        }
    }

    /// Parses `free_text` / `multiple_choice`; anything else is
    /// `Error::InvalidQuizType` carrying the input.
    pub fn parse(s: &str) -> (r: Result<QuizType, Error>)
        ensures
            match r {
                Ok(t) => quiz_type_word(t) == s@,
                Err(e) => (forall|t: QuizType| quiz_type_word(t) != s@) && (e matches Error::InvalidQuizType(x) && x@ == s@),
            },
    {
        if str_eq(s, QuizType::FreeText.as_str()) {
            Ok(QuizType::FreeText)
        } else if str_eq(s, QuizType::MultipleChoice.as_str()) {
            Ok(QuizType::MultipleChoice)
        } else {
            Err(Error::InvalidQuizType(crate::ids::to_owned(s)))
        }
    }
}

/// Each spelling names exactly one rating, and the integer encoding
/// round-trips.
pub proof fn lemma_rating_encodings(r: Rating, x: Rating)
    ensures
        rating_of_code(rating_code(r)) == Some(r),
        rating_word(r) == rating_word(x) ==> r == x,
{
    assert(rating_word(Rating::Again) != rating_word(Rating::Hard));
    assert(rating_word(Rating::Good) != rating_word(Rating::Easy));
}

/// Each spelling names exactly one difficulty, strategy and quiz type, so
/// `parse` inverts `as_str`.
pub proof fn lemma_words_injective(d1: Difficulty, d2: Difficulty, s1: Strategy, s2: Strategy, t1: QuizType, t2: QuizType)
    ensures
        difficulty_word(d1) == difficulty_word(d2) ==> d1 == d2,
        strategy_word(s1) == strategy_word(s2) ==> s1 == s2,
        strategy_word(s1) != strategy_cli_word(s2),
        strategy_cli_word(s1) == strategy_cli_word(s2) ==> s1 == s2,
        quiz_type_word(t1) == quiz_type_word(t2) ==> t1 == t2,
{
    assert(difficulty_word(Difficulty::Easy) != difficulty_word(Difficulty::Hard));
    assert(strategy_word(Strategy::BottomUp)[6] != strategy_cli_word(Strategy::BottomUp)[6]);
    assert(strategy_word(Strategy::TopDown)[3] != strategy_cli_word(Strategy::TopDown)[3]);
    assert(strategy_word(Strategy::BottomUp).len() != strategy_cli_word(Strategy::TopDown).len());
    assert(strategy_word(Strategy::TopDown).len() != strategy_cli_word(Strategy::BottomUp).len());
}

} // verus!
