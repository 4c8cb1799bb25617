//! The tally of a one-shot import of the legacy on-disk state, and the
//! line that reports it.
use crate::text::{concat, decimal, decimal_string, joined, views};
use vstd::prelude::*;

verus! {

/// What one import pass wrote.
#[derive(Debug, Clone, Copy, PartialEq, Eq, Structural)]
pub struct MigrationReport {
    pub paths_imported: u32,
    pub paths_skipped: u32,
    pub events_imported: u32,
    pub overlay_lessons_imported: u32,
    pub overlay_quizzes_imported: u32,
    pub overlay_removed_imported: u32,
}

impl Default for MigrationReport {
    fn default() -> (r: MigrationReport)
        ensures
            r.paths_imported == 0 && r.paths_skipped == 0 && r.events_imported == 0,
            r.overlay_lessons_imported == 0 && r.overlay_quizzes_imported == 0 && r.overlay_removed_imported == 0,
    {
        MigrationReport {
            paths_imported: 0,
            paths_skipped: 0,
            events_imported: 0,
            overlay_lessons_imported: 0,
            overlay_quizzes_imported: 0,
            overlay_removed_imported: 0,
        }
    }
}

/// The report line of an import from `root`: the counts of paths
/// imported and already present, of events, and of overlay lessons,
/// quizzes and tombstones.
pub open spec fn migration_summary(r: MigrationReport, root: Seq<char>) -> Seq<char> {
    joined(seq![
        "migrated "@, decimal(r.paths_imported as nat),
        " path(s) ("@, decimal(r.paths_skipped as nat),
        " already present), "@, decimal(r.events_imported as nat),
        " event(s), overlay: "@, decimal(r.overlay_lessons_imported as nat),
        " lesson(s) / "@, decimal(r.overlay_quizzes_imported as nat),
        " quiz(zes) / "@, decimal(r.overlay_removed_imported as nat),
        " tombstone(s) [from "@, root, "]"@,
    ])
}

impl MigrationReport {
    /// Notes one legacy path: one the database did not hold yet (`fresh`)
    /// is imported, and its targets and log with it; one already present
    /// is skipped, log included, so that a rerun imports nothing twice.
    /// Says whether the log is to be imported.
    pub fn note_path(&mut self, fresh: bool) -> (import_log: bool)
        requires
            fresh ==> old(self).paths_imported < u32::MAX,
            !fresh ==> old(self).paths_skipped < u32::MAX,
        ensures
            import_log == fresh,
            fresh ==> *final(self) == (MigrationReport { paths_imported: (old(self).paths_imported + 1) as u32, ..*old(self) }),
            !fresh ==> *final(self) == (MigrationReport { paths_skipped: (old(self).paths_skipped + 1) as u32, ..*old(self) }),
    {
        if fresh {
            self.paths_imported = self.paths_imported + 1;
        } else {
            self.paths_skipped = self.paths_skipped + 1;
        }
        fresh
    }

    /// Notes one imported event.
    pub fn note_event(&mut self)
        requires
            old(self).events_imported < u32::MAX,
        ensures
            *final(self) == (MigrationReport { events_imported: (old(self).events_imported + 1) as u32, ..*old(self) }),
    {
        self.events_imported = self.events_imported + 1;
    }
}

impl MigrationReport {
    /// The report line (see `migration_summary`).
    pub fn summary(&self, root: &str) -> (s: String)
        ensures
            s@ == migration_summary(*self, root@),
    {
        let a = decimal_string(self.paths_imported as u64);
        let b = decimal_string(self.paths_skipped as u64);
        let c = decimal_string(self.events_imported as u64);
        let d = decimal_string(self.overlay_lessons_imported as u64);
        let e = decimal_string(self.overlay_quizzes_imported as u64);
        let f = decimal_string(self.overlay_removed_imported as u64);
        let parts: [&str; 14] = [
            "migrated ", a.as_str(),
            " path(s) (", b.as_str(),
            " already present), ", c.as_str(),
            " event(s), overlay: ", d.as_str(),
            " lesson(s) / ", e.as_str(),
            " quiz(zes) / ", f.as_str(),
            " tombstone(s) [from ", root,
        ];
        let head = concat(&parts);
        let tail: [&str; 2] = [head.as_str(), "]"];
        let s = concat(&tail);
        proof {
            let v = seq![
                "migrated "@, a@,
                " path(s) ("@, b@,
                " already present), "@, c@,
                " event(s), overlay: "@, d@,
                " lesson(s) / "@, e@,
                " quiz(zes) / "@, f@,
                " tombstone(s) [from "@, root@,
            ];
            assert(views(parts@) =~= v);
            assert(views(tail@) =~= seq![head@, "]"@]);
            assert(seq![head@, "]"@] =~= seq![head@].push("]"@));
            seq![head@].lemma_flatten_push("]"@);
            assert(seq![head@] =~= Seq::<Seq<char>>::empty().push(head@));
            Seq::<Seq<char>>::empty().lemma_flatten_push(head@);
            v.lemma_flatten_push("]"@);
            assert(v.push("]"@) =~= seq![
                "migrated "@, decimal(self.paths_imported as nat),
                " path(s) ("@, decimal(self.paths_skipped as nat),
                " already present), "@, decimal(self.events_imported as nat),
                " event(s), overlay: "@, decimal(self.overlay_lessons_imported as nat),
                " lesson(s) / "@, decimal(self.overlay_quizzes_imported as nat),
                " quiz(zes) / "@, decimal(self.overlay_removed_imported as nat),
                " tombstone(s) [from "@, root@, "]"@,
            ]);
        }
        s
    }
}

} // verus!
