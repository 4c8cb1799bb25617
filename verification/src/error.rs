//! Crate-wide error type.
use crate::text::{concat, joined, signed_decimal, signed_decimal_string, views};
use vstd::prelude::*;
use vstd::string::*;

verus! {

/// Every failure the library reports. Failures of the database, the file
/// system and the serializer are reported by the program around the
/// library, which wraps this type.
#[derive(Debug, PartialEq, Eq)]
pub enum Error {
    /// AYML parse error for the file at `path`.
    AymlParse { path: String, message: String },
    /// AYML serialization error.
    AymlSerialize(String),
    /// Unknown id for a graph node (or a malformed quiz id).
    UnknownId(String),
    /// A cluster with no atomic descendants.
    EmptyCluster(String),
    /// The target atoms' prerequisites form a cycle.
    Cycle,
    /// Received a cluster where an atom was required.
    NotAtom(String),
    /// Atom not found in the graph.
    AtomNotFound(String),
    /// Learning path not found.
    NoPath,
    /// No home directory to keep state in.
    NoHome,
    /// An atom has no stored lesson.
    NoLesson(String),
    /// A lesson is already stored for the atom.
    LessonAlreadyExists(String),
    /// Failure of the FSRS scheduler.
    Fsrs(String),
    /// A timestamp that does not parse.
    BadTimestamp(String),
    /// An integer rating outside 1..=4.
    InvalidRating(i64),
    /// Unrecognized difficulty spelling.
    InvalidDifficulty(String),
    /// Unrecognized quiz type spelling.
    InvalidQuizType(String),
    /// Unrecognized strategy spelling.
    InvalidStrategy(String),
    /// Card cache row that breaks its invariants.
    CardsCorrupt(String),
    /// Unrecognized event kind spelling.
    UnknownEventKind(String),
    /// The MCP server has neither an API key nor an admin password.
    MissingAuth,
    /// The MCP bind address does not parse.
    BadBindAddr(String),
    /// The public URL does not parse.
    BadPublicUrl(String),
    /// `subpath set` with no atoms.
    SubpathEmpty,
    /// `subpath set` on a path whose strategy is not top-down.
    SubpathNotTopDown,
    /// The last subpath atom is not a target of the path.
    SubpathTailNotTarget(String),
    /// An atom occurs twice in a subpath.
    SubpathDuplicateAtom(String),
}


/// The message an error reads as.
pub open spec fn error_message(e: Error) -> Seq<char> {
    match e {
        Error::AymlParse { path, message } => joined(seq!["ayml parse: "@, path@, ": "@, message@]),
        Error::AymlSerialize(m) => joined(seq!["ayml serialize: "@, m@]),
        Error::UnknownId(x) => joined(seq!["unknown id: "@, x@]),
        Error::EmptyCluster(x) => joined(seq!["cluster '"@, x@, "' has no atomic descendants"@]),
        Error::Cycle => joined(seq!["cycle in target atoms"@]),
        Error::NotAtom(x) => joined(seq!["'"@, x@, "' is a cluster, not an atom"@]),
        Error::AtomNotFound(x) => joined(seq!["atom '"@, x@, "' not found in graph"@]),
        Error::NoPath => joined(seq!["learning path not found"@]),
        Error::NoHome => joined(seq!["HOME not set; set MATHTUTOR_HOME or HOME"@]),
        Error::NoLesson(x) => joined(seq!["atom '"@, x@, "' has no stored lesson; teach it before authoring quizzes"@]),
        Error::LessonAlreadyExists(x) => joined(seq!["atom '"@, x@, "' already has a stored lesson"@]),
        Error::Fsrs(m) => joined(seq!["fsrs: "@, m@]),
        Error::BadTimestamp(m) => joined(seq!["bad timestamp: "@, m@]),
        Error::InvalidRating(v) => joined(seq!["invalid rating value: "@, signed_decimal(v as int)]),
        Error::InvalidDifficulty(x) => joined(seq!["invalid difficulty: "@, x@]),
        Error::InvalidQuizType(x) => joined(seq!["invalid quiz type: "@, x@]),
        Error::InvalidStrategy(x) => joined(seq!["invalid strategy: "@, x@]),
        Error::CardsCorrupt(m) => joined(seq!["cards cache corrupt: "@, m@]),
        Error::UnknownEventKind(x) => joined(seq!["unknown event kind: "@, x@]),
        Error::MissingAuth => joined(seq!["missing MT_API_KEY or MT_ADMIN_PASSWORD"@]),
        Error::BadBindAddr(x) => joined(seq!["invalid bind address '"@, x@, "'"@]),
        Error::BadPublicUrl(x) => joined(seq!["invalid public URL '"@, x@, "'"@]),
        Error::SubpathEmpty => joined(seq!["subpath has no atoms"@]),
        Error::SubpathNotTopDown => joined(seq!["a subpath needs a top-down path"@]),
        Error::SubpathTailNotTarget(x) => joined(seq!["subpath must end in a target of the path; '"@, x@, "' is not one"@]),
        Error::SubpathDuplicateAtom(x) => joined(seq!["atom '"@, x@, "' appears twice in the subpath"@]),
    }
}

/// The short machine-readable name of an error's kind, as tool replies
/// report it beside the message.
pub open spec fn error_kind(e: Error) -> Seq<char> {
    match e {
        Error::AymlParse { .. } => "io"@,
        Error::AymlSerialize(_) => "io"@,
        Error::UnknownId(_) => "unknown_id"@,
        Error::EmptyCluster(_) => "empty_cluster"@,
        Error::Cycle => "cycle"@,
        Error::NotAtom(_) => "not_atom"@,
        Error::AtomNotFound(_) => "atom_not_found"@,
        Error::NoPath => "no_path"@,
        Error::NoHome => "no_home"@,
        Error::NoLesson(_) => "no_lesson"@,
        Error::LessonAlreadyExists(_) => "lesson_already_exists"@,
        Error::Fsrs(_) => "fsrs"@,
        Error::BadTimestamp(_) => "bad_timestamp"@,
        Error::InvalidRating(_) => "invalid_rating"@,
        Error::InvalidDifficulty(_) => "invalid_difficulty"@,
        Error::InvalidQuizType(_) => "invalid_quiz_type"@,
        Error::InvalidStrategy(_) => "invalid_strategy"@,
        Error::CardsCorrupt(_) => "cards_corrupt"@,
        Error::UnknownEventKind(_) => "unknown_event_kind"@,
        Error::MissingAuth => "server"@,
        Error::BadBindAddr(_) => "server"@,
        Error::BadPublicUrl(_) => "server"@,
        Error::SubpathEmpty => "subpath_empty"@,
        Error::SubpathNotTopDown => "subpath_not_top_down"@,
        Error::SubpathTailNotTarget(_) => "subpath_tail_not_target"@,
        Error::SubpathDuplicateAtom(_) => "subpath_duplicate_atom"@,
    }
}

impl Error {

    /// The kind of the error (see `error_kind`).
    pub fn kind(&self) -> (r: &'static str)
        ensures
            r@ == error_kind(*self),
    {
        match self {
            Error::AymlParse { .. } => {
                proof { reveal_strlit("io"); }
                "io"
            },
            Error::AymlSerialize(_) => {
                proof { reveal_strlit("io"); }
                "io"
            },
            Error::UnknownId(_) => {
                proof { reveal_strlit("unknown_id"); }
                "unknown_id"
            },
            Error::EmptyCluster(_) => {
                proof { reveal_strlit("empty_cluster"); }
                "empty_cluster"
            },
            Error::Cycle => {
                proof { reveal_strlit("cycle"); }
                "cycle"
            },
            Error::NotAtom(_) => {
                proof { reveal_strlit("not_atom"); }
                "not_atom"
            },
            Error::AtomNotFound(_) => {
                proof { reveal_strlit("atom_not_found"); }
                "atom_not_found"
            },
            Error::NoPath => {
                proof { reveal_strlit("no_path"); }
                "no_path"
            },
            Error::NoHome => {
                proof { reveal_strlit("no_home"); }
                "no_home"
            },
            Error::NoLesson(_) => {
                proof { reveal_strlit("no_lesson"); }
                "no_lesson"
            },
            Error::LessonAlreadyExists(_) => {
                proof { reveal_strlit("lesson_already_exists"); }
                "lesson_already_exists"
            },
            Error::Fsrs(_) => {
                proof { reveal_strlit("fsrs"); }
                "fsrs"
            },
            Error::BadTimestamp(_) => {
                proof { reveal_strlit("bad_timestamp"); }
                "bad_timestamp"
            },
            Error::InvalidRating(_) => {
                proof { reveal_strlit("invalid_rating"); }
                "invalid_rating"
            },
            Error::InvalidDifficulty(_) => {
                proof { reveal_strlit("invalid_difficulty"); }
                "invalid_difficulty"
            },
            Error::InvalidQuizType(_) => {
                proof { reveal_strlit("invalid_quiz_type"); }
                "invalid_quiz_type"
            },
            Error::InvalidStrategy(_) => {
                proof { reveal_strlit("invalid_strategy"); }
                "invalid_strategy"
            },
            Error::CardsCorrupt(_) => {
                proof { reveal_strlit("cards_corrupt"); }
                "cards_corrupt"
            },
            Error::UnknownEventKind(_) => {
                proof { reveal_strlit("unknown_event_kind"); }
                "unknown_event_kind"
            },
            Error::MissingAuth => {
                proof { reveal_strlit("server"); }
                "server"
            },
            Error::BadBindAddr(_) => {
                proof { reveal_strlit("server"); }
                "server"
            },
            Error::BadPublicUrl(_) => {
                proof { reveal_strlit("server"); }
                "server"
            },
            Error::SubpathEmpty => {
                proof { reveal_strlit("subpath_empty"); }
                "subpath_empty"
            },
            Error::SubpathNotTopDown => {
                proof { reveal_strlit("subpath_not_top_down"); }
                "subpath_not_top_down"
            },
            Error::SubpathTailNotTarget(_) => {
                proof { reveal_strlit("subpath_tail_not_target"); }
                "subpath_tail_not_target"
            },
            Error::SubpathDuplicateAtom(_) => {
                proof { reveal_strlit("subpath_duplicate_atom"); }
                "subpath_duplicate_atom"
            },
        }
    }
    /// The message the error reads as (see `error_message`).
    pub fn message(&self) -> (r: String)
        ensures
            r@ == error_message(*self),
    {
        match self {
            Error::AymlParse { path, message } => {
                let parts: [&str; 4] = ["ayml parse: ", path.as_str(), ": ", message.as_str()];
                let r = concat(&parts);
                proof {
                    reveal_strlit("ayml parse: ");
                    reveal_strlit(": ");
                    assert(views(parts@) =~= seq!["ayml parse: "@, path@, ": "@, message@]);
                }
                r
            },
            Error::AymlSerialize(m) => {
                let parts: [&str; 2] = ["ayml serialize: ", m.as_str()];
                let r = concat(&parts);
                proof {
                    reveal_strlit("ayml serialize: ");
                    assert(views(parts@) =~= seq!["ayml serialize: "@, m@]);
                }
                r
            },
            Error::UnknownId(x) => {
                let parts: [&str; 2] = ["unknown id: ", x.as_str()];
                let r = concat(&parts);
                proof {
                    reveal_strlit("unknown id: ");
                    assert(views(parts@) =~= seq!["unknown id: "@, x@]);
                }
                r
            },
            Error::EmptyCluster(x) => {
                let parts: [&str; 3] = ["cluster '", x.as_str(), "' has no atomic descendants"];
                let r = concat(&parts);
                proof {
                    reveal_strlit("cluster '");
                    reveal_strlit("' has no atomic descendants");
                    assert(views(parts@) =~= seq!["cluster '"@, x@, "' has no atomic descendants"@]);
                }
                r
            },
            Error::Cycle => {
                let parts: [&str; 1] = ["cycle in target atoms"];
                let r = concat(&parts);
                proof {
                    reveal_strlit("cycle in target atoms");
                    assert(views(parts@) =~= seq!["cycle in target atoms"@]);
                }
                r
            },
            Error::NotAtom(x) => {
                let parts: [&str; 3] = ["'", x.as_str(), "' is a cluster, not an atom"];
                let r = concat(&parts);
                proof {
                    reveal_strlit("'");
                    reveal_strlit("' is a cluster, not an atom");
                    assert(views(parts@) =~= seq!["'"@, x@, "' is a cluster, not an atom"@]);
                }
                r
            },
            Error::AtomNotFound(x) => {
                let parts: [&str; 3] = ["atom '", x.as_str(), "' not found in graph"];
                let r = concat(&parts);
                proof {
                    reveal_strlit("atom '");
                    reveal_strlit("' not found in graph");
                    assert(views(parts@) =~= seq!["atom '"@, x@, "' not found in graph"@]);
                }
                r
            },
            Error::NoPath => {
                let parts: [&str; 1] = ["learning path not found"];
                let r = concat(&parts);
                proof {
                    reveal_strlit("learning path not found");
                    assert(views(parts@) =~= seq!["learning path not found"@]);
                }
                r
            },
            Error::NoHome => {
                let parts: [&str; 1] = ["HOME not set; set MATHTUTOR_HOME or HOME"];
                let r = concat(&parts);
                proof {
                    reveal_strlit("HOME not set; set MATHTUTOR_HOME or HOME");
                    assert(views(parts@) =~= seq!["HOME not set; set MATHTUTOR_HOME or HOME"@]);
                }
                r
            },
            Error::NoLesson(x) => {
                let parts: [&str; 3] = ["atom '", x.as_str(), "' has no stored lesson; teach it before authoring quizzes"];
                let r = concat(&parts);
                proof {
                    reveal_strlit("atom '");
                    reveal_strlit("' has no stored lesson; teach it before authoring quizzes");
                    assert(views(parts@) =~= seq!["atom '"@, x@, "' has no stored lesson; teach it before authoring quizzes"@]);
                }
                r
            },
            Error::LessonAlreadyExists(x) => {
                let parts: [&str; 3] = ["atom '", x.as_str(), "' already has a stored lesson"];
                let r = concat(&parts);
                proof {
                    reveal_strlit("atom '");
                    reveal_strlit("' already has a stored lesson");
                    assert(views(parts@) =~= seq!["atom '"@, x@, "' already has a stored lesson"@]);
                }
                r
            },
            Error::Fsrs(m) => {
                let parts: [&str; 2] = ["fsrs: ", m.as_str()];
                let r = concat(&parts);
                proof {
                    reveal_strlit("fsrs: ");
                    assert(views(parts@) =~= seq!["fsrs: "@, m@]);
                }
                r
            },
            Error::BadTimestamp(m) => {
                let parts: [&str; 2] = ["bad timestamp: ", m.as_str()];
                let r = concat(&parts);
                proof {
                    reveal_strlit("bad timestamp: ");
                    assert(views(parts@) =~= seq!["bad timestamp: "@, m@]);
                }
                r
            },
            Error::InvalidRating(v) => {
                let n = signed_decimal_string(*v);
                let parts: [&str; 2] = ["invalid rating value: ", n.as_str()];
                let r = concat(&parts);
                proof {
                    reveal_strlit("invalid rating value: ");
                    assert(views(parts@) =~= seq!["invalid rating value: "@, n@]);
                }
                r
            },
            Error::InvalidDifficulty(x) => {
                let parts: [&str; 2] = ["invalid difficulty: ", x.as_str()];
                let r = concat(&parts);
                proof {
                    reveal_strlit("invalid difficulty: ");
                    assert(views(parts@) =~= seq!["invalid difficulty: "@, x@]);
                }
                r
            },
            Error::InvalidQuizType(x) => {
                let parts: [&str; 2] = ["invalid quiz type: ", x.as_str()];
                let r = concat(&parts);
                proof {
                    reveal_strlit("invalid quiz type: ");
                    assert(views(parts@) =~= seq!["invalid quiz type: "@, x@]);
                }
                r
            },
            Error::InvalidStrategy(x) => {
                let parts: [&str; 2] = ["invalid strategy: ", x.as_str()];
                let r = concat(&parts);
                proof {
                    reveal_strlit("invalid strategy: ");
                    assert(views(parts@) =~= seq!["invalid strategy: "@, x@]);
                }
                r
            },
            Error::CardsCorrupt(m) => {
                let parts: [&str; 2] = ["cards cache corrupt: ", m.as_str()];
                let r = concat(&parts);
                proof {
                    reveal_strlit("cards cache corrupt: ");
                    assert(views(parts@) =~= seq!["cards cache corrupt: "@, m@]);
                }
                r
            },
            Error::UnknownEventKind(x) => {
                let parts: [&str; 2] = ["unknown event kind: ", x.as_str()];
                let r = concat(&parts);
                proof {
                    reveal_strlit("unknown event kind: ");
                    assert(views(parts@) =~= seq!["unknown event kind: "@, x@]);
                }
                r
            },
            Error::MissingAuth => {
                let parts: [&str; 1] = ["missing MT_API_KEY or MT_ADMIN_PASSWORD"];
                let r = concat(&parts);
                proof {
                    reveal_strlit("missing MT_API_KEY or MT_ADMIN_PASSWORD");
                    assert(views(parts@) =~= seq!["missing MT_API_KEY or MT_ADMIN_PASSWORD"@]);
                }
                r
            },
            Error::BadBindAddr(x) => {
                let parts: [&str; 3] = ["invalid bind address '", x.as_str(), "'"];
                let r = concat(&parts);
                proof {
                    reveal_strlit("invalid bind address '");
                    reveal_strlit("'");
                    assert(views(parts@) =~= seq!["invalid bind address '"@, x@, "'"@]);
                }
                r
            },
            Error::BadPublicUrl(x) => {
                let parts: [&str; 3] = ["invalid public URL '", x.as_str(), "'"];
                let r = concat(&parts);
                proof {
                    reveal_strlit("invalid public URL '");
                    reveal_strlit("'");
                    assert(views(parts@) =~= seq!["invalid public URL '"@, x@, "'"@]);
                }
                r
            },
            Error::SubpathEmpty => {
                let parts: [&str; 1] = ["subpath has no atoms"];
                let r = concat(&parts);
                proof {
                    reveal_strlit("subpath has no atoms");
                    assert(views(parts@) =~= seq!["subpath has no atoms"@]);
                }
                r
            },
            Error::SubpathNotTopDown => {
                let parts: [&str; 1] = ["a subpath needs a top-down path"];
                let r = concat(&parts);
                proof {
                    reveal_strlit("a subpath needs a top-down path");
                    assert(views(parts@) =~= seq!["a subpath needs a top-down path"@]);
                }
                r
            },
            Error::SubpathTailNotTarget(x) => {
                let parts: [&str; 3] = ["subpath must end in a target of the path; '", x.as_str(), "' is not one"];
                let r = concat(&parts);
                proof {
                    reveal_strlit("subpath must end in a target of the path; '");
                    reveal_strlit("' is not one");
                    assert(views(parts@) =~= seq!["subpath must end in a target of the path; '"@, x@, "' is not one"@]);
                }
                r
            },
            Error::SubpathDuplicateAtom(x) => {
                let parts: [&str; 3] = ["atom '", x.as_str(), "' appears twice in the subpath"];
                let r = concat(&parts);
                proof {
                    reveal_strlit("atom '");
                    reveal_strlit("' appears twice in the subpath");
                    assert(views(parts@) =~= seq!["atom '"@, x@, "' appears twice in the subpath"@]);
                }
                r
            },
        }
    }
}

} // verus!
