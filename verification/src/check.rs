//! `mt graph check`: validation of the curriculum's area files.
//!
//! The check walks every area's concept trees in manifest order and
//! reports malformed ids, ids that do not extend their parent, duplicate
//! ids, prerequisites that name no concept, prerequisite cycles and atoms
//! that nothing depends on.
use crate::curriculum::{area_concepts, AreaFile, Concept, ManifestArea};
use crate::ids::{copy, copy_all, opt_view, is_dotted_prefix, lemma_str_lt_order, str_less, str_lt, strs, to_owned, vec_position, IdSet};
use crate::text::{concat, decimal, decimal_string, joined, views};
use vstd::string::*;
use vstd::prelude::*;

verus! {

/// One concept met by the walk: the concept, the ids of its enclosing
/// concepts (outermost first) and the position of its area in the
/// manifest.
pub type Step = (Concept, Seq<Seq<char>>, int);

/// The walk over the trees `cs` below the enclosing ids `anc`: each
/// concept before its descendants, the trees in order.
pub open spec fn walk(cs: Seq<Concept>, anc: Seq<Seq<char>>, area: int) -> Seq<Step>
    decreases cs,
{
    if cs.len() == 0 {
        Seq::empty()
    } else {
        proof {
            assert(decreases_to!(cs => cs.drop_first()));
        }
        seq![(cs[0], anc, area)] + walk(cs[0].children@, anc.push(cs[0].id@), area) + walk(cs.drop_first(), anc, area)
    }
}

pub proof fn lemma_walk_concat(a: Seq<Concept>, b: Seq<Concept>, anc: Seq<Seq<char>>, area: int)
    ensures
        walk(a + b, anc, area) == walk(a, anc, area) + walk(b, anc, area),
    decreases a.len(),
{
    if a.len() == 0 {
        assert(a + b =~= b);
        assert(walk(a, anc, area) + walk(b, anc, area) =~= walk(b, anc, area));
    } else {
        let ab = a + b;
        assert(ab[0] == a[0]);
        assert(ab.drop_first() =~= a.drop_first() + b);
        lemma_walk_concat(a.drop_first(), b, anc, area);
        let h = seq![(a[0], anc, area)] + walk(a[0].children@, anc.push(a[0].id@), area);
        assert(walk(ab, anc, area) =~= h + (walk(a.drop_first(), anc, area) + walk(b, anc, area)));
        assert(walk(a, anc, area) + walk(b, anc, area) =~= h + walk(a.drop_first(), anc, area) + walk(b, anc, area));
    }
}

proof fn lemma_walk_one(c: Concept, anc: Seq<Seq<char>>, area: int)
    ensures
        walk(seq![c], anc, area) == seq![(c, anc, area)] + walk(c.children@, anc.push(c.id@), area),
{
    let one = seq![c];
    assert(one[0] == c);
    assert(one.drop_first() =~= Seq::<Concept>::empty());
    assert(walk(one.drop_first(), anc, area) =~= Seq::<Step>::empty());
    assert(seq![(c, anc, area)] + walk(c.children@, anc.push(c.id@), area) + Seq::<Step>::empty()
        =~= seq![(c, anc, area)] + walk(c.children@, anc.push(c.id@), area));
}

/// What the checks read of one step, copied out of the concept tree.
#[derive(Debug)]
pub struct Visit {
    pub id: String,
    pub name: String,
    pub is_atom: bool,
    pub terminal: bool,
    pub prerequisites: Vec<String>,
    pub ancestors: Vec<String>,
    pub area: usize,
}

/// `v` records the step `s`.
pub open spec fn records(v: Visit, s: Step) -> bool {
    &&& v.id@ == s.0.id@
    &&& v.name@ == s.0.name@
    &&& v.is_atom == s.0.spec_is_atom()
    &&& v.terminal == s.0.terminal
    &&& strs(v.prerequisites@) == strs(s.0.prerequisites@)
    &&& strs(v.ancestors@) == s.1
    &&& v.area == s.2
}

/// Appends the visits of `c` and its descendants.
fn collect(c: &Concept, anc: &mut Vec<String>, area: usize, out: &mut Vec<Visit>)
    requires
        old(anc)@.len() <= old(out)@.len(),
    ensures
        final(anc)@ == old(anc)@,
        final(out)@.len() == old(out)@.len() + walk(seq![*c], strs(old(anc)@), area as int).len(),
        forall|i: int| 0 <= i < old(out)@.len() ==> final(out)@[i] == old(out)@[i],
        forall|i: int|
            0 <= i < walk(seq![*c], strs(old(anc)@), area as int).len() ==> #[trigger] records(
                final(out)@[old(out)@.len() + i],
                walk(seq![*c], strs(old(anc)@), area as int)[i],
            ),
        forall|i: int| old(out)@.len() <= i < final(out)@.len() ==> #[trigger] final(out)@[i].ancestors@.len() <= i,
    decreases c,
{
    let ghost a0 = strs(anc@);
    let ghost anc0 = anc@;
    let ghost out0 = out@;
    let ghost area_i = area as int;
    proof {
        lemma_walk_one(*c, a0, area_i);
    }
    out.push(Visit {
        id: copy(&c.id),
        name: copy(&c.name),
        is_atom: c.is_atom(),
        terminal: c.terminal,
        prerequisites: copy_all(&c.prerequisites),
        ancestors: copy_all(anc),
        area,
    });
    assert(records(out@[out0.len() as int], (*c, a0, area_i)));
    let id_copy = copy(&c.id);
    anc.push(id_copy);
    let ghost a1 = strs(anc@);
    assert(a1 =~= a0.push(c.id@));
    let ghost orig = c.children@;
    let ghost base = out0.len() + 1;
    let mut k: usize = 0;
    assert(walk(orig.take(0), a1, area_i) =~= Seq::<Step>::empty());
    while k < c.children.len()
        invariant
            k <= orig.len(),
            orig == c.children@,
            area_i == area as int,
            anc@ == anc0.push(id_copy),
            a1 == strs(anc@),
            a1 == a0.push(c.id@),
            base == out0.len() + 1,
            out@.len() == base + walk(orig.take(k as int), a1, area_i).len(),
            forall|i: int| 0 <= i < out0.len() ==> out@[i] == out0[i],
            records(out@[out0.len() as int], (*c, a0, area_i)),
            out@[out0.len() as int].ancestors@.len() <= out0.len(),
            anc@.len() <= out@.len(),
            forall|i: int|
                0 <= i < walk(orig.take(k as int), a1, area_i).len() ==> #[trigger] records(
                    out@[base + i],
                    walk(orig.take(k as int), a1, area_i)[i],
                ),
            forall|i: int| out0.len() < i < out@.len() ==> #[trigger] out@[i].ancestors@.len() <= i,
        decreases orig.len() - k,
    {
        let child = &c.children[k];
        assert(decreases_to!(c => child)) by {
            assert(decreases_to!(c => c.children));
            assert(decreases_to!(c.children => c.children@));
            assert(decreases_to!(c.children@ => c.children@[k as int]));
        }
        let ghost before = out@;
        let ghost wk = walk(orig.take(k as int), a1, area_i);
        collect(child, anc, area, out);

        proof {
            assert(orig.take(k + 1) =~= orig.take(k as int) + seq![*child]);
            lemma_walk_concat(orig.take(k as int), seq![*child], a1, area_i);
            let wc = walk(seq![*child], a1, area_i);
            assert forall|i: int| 0 <= i < (wk + wc).len() implies #[trigger] records(out@[base + i], (wk + wc)[i]) by {
                if i < wk.len() {
                    assert(out@[base + i] == before[base + i]);
                } else {
                    assert(records(out@[before.len() + (i - wk.len())], wc[i - wk.len()]));
                }
            }
            assert forall|i: int| out0.len() < i < out@.len() implies #[trigger] out@[i].ancestors@.len() <= i by {
                if i < before.len() {
                    assert(out@[i] == before[i]);
                }
            }
        }
        k = k + 1;
    }
    anc.pop();
    assert(anc@ =~= anc0);
    proof {
        assert(orig.take(k as int) =~= orig);
        let w = walk(seq![*c], a0, area_i);
        assert(w == seq![(*c, a0, area_i)] + walk(orig, a1, area_i));
        assert forall|i: int| 0 <= i < w.len() implies #[trigger] records(out@[out0.len() + i], w[i]) by {
            if i > 0 {
                assert(w[i] == walk(orig, a1, area_i)[i - 1]);
                assert(records(out@[base + (i - 1)], walk(orig, a1, area_i)[i - 1]));
            }
        }
    }
}


// ── Issues ──────────────────────────────────────────────────────────

/// One finding of the check: the area (by manifest slug) and node it is
/// about, where known, and what is wrong.
#[derive(Debug)]
pub struct CheckIssue {
    pub area: Option<String>,
    pub node: Option<String>,
    pub message: String,
}

/// The check's summary: counts of what was walked and the findings.
#[derive(Debug)]
pub struct CheckReport {
    pub areas: usize,
    pub clusters: usize,
    pub atoms: usize,
    pub max_depth: usize,
    pub prereq_edges: usize,
    pub issues: Vec<CheckIssue>,
}

impl View for CheckIssue {
    type V = (Option<Seq<char>>, Option<Seq<char>>, Seq<char>);

    open spec fn view(&self) -> (Option<Seq<char>>, Option<Seq<char>>, Seq<char>) {
        (opt_view(self.area), opt_view(self.node), self.message@)
    }
}

/// The views of a list of issues.
pub open spec fn issue_views(v: Seq<CheckIssue>) -> Seq<(Option<Seq<char>>, Option<Seq<char>>, Seq<char>)> {
    v.map_values(|i: CheckIssue| i@)
}

fn push_issue(issues: &mut Vec<CheckIssue>, area: Option<String>, node: Option<String>, message: String)
    ensures
        issue_views(final(issues)@) == issue_views(old(issues)@).push((opt_view(area), opt_view(node), message@)),
{
    let ghost before = issues@;
    issues.push(CheckIssue { area, node, message });
    assert(issue_views(issues@) =~= issue_views(before).push((opt_view(area), opt_view(node), message@)));
}

// ── Ids ─────────────────────────────────────────────────────────────

/// The dot-separated segments of `s` (as `str::split('.')` gives them:
/// at least one, empty ones kept).
pub open spec fn split_dots(s: Seq<char>) -> Seq<Seq<char>>
    decreases s.len(),
{
    if s.len() == 0 {
        seq![Seq::<char>::empty()]
    } else if s.last() == '.' {
        split_dots(s.drop_last()).push(Seq::<char>::empty())
    } else {
        let r = split_dots(s.drop_last());
        r.update(r.len() - 1, r.last().push(s.last()))
    }
}

pub proof fn lemma_split_dots_len(s: Seq<char>)
    ensures
        split_dots(s).len() >= 1,
    decreases s.len(),
{
    if s.len() > 0 {
        lemma_split_dots_len(s.drop_last());
    }
}

/// The dot-separated segments of `s`.
pub fn split_dots_exec(s: &str) -> (r: Vec<String>)
    ensures
        strs(r@) == split_dots(s@),
{
    let n = s.unicode_len();
    let mut out: Vec<String> = Vec::new();
    let mut start: usize = 0;
    let mut i: usize = 0;
    assert(s@.take(0) =~= Seq::<char>::empty());
    assert(strs(out@).push(s@.subrange(0, 0)) =~= seq![Seq::<char>::empty()]);
    while i < n
        invariant
            n == s@.len(),
            start <= i <= n,
            strs(out@).push(s@.subrange(start as int, i as int)) == split_dots(s@.take(i as int)),
        decreases n - i,
    {
        proof {
            lemma_split_dots_len(s@.take(i as int));
            assert(s@.take(i + 1).drop_last() =~= s@.take(i as int));
            assert(s@.take(i + 1).last() == s@[i as int]);
        }
        if s.get_char(i) == '.' {
            let ghost before = out@;
            let seg = s.substring_char(start, i);
            out.push(to_owned(seg));
            assert(strs(out@) =~= strs(before).push(s@.subrange(start as int, i as int)));
            start = i + 1;
            assert(s@.subrange(start as int, i + 1) =~= Seq::<char>::empty());
        } else {
            let ghost r = split_dots(s@.take(i as int));
            assert(s@.subrange(start as int, i + 1) =~= s@.subrange(start as int, i as int).push(s@[i as int]));
            assert(strs(out@).push(s@.subrange(start as int, i + 1)) =~= r.update(r.len() - 1, r.last().push(s@[i as int])));
        }
        i = i + 1;
    }
    let seg = s.substring_char(start, n);
    let ghost before = out@;
    out.push(to_owned(seg));
    assert(strs(out@) =~= strs(before).push(s@.subrange(start as int, n as int)));
    assert(s@.take(n as int) =~= s@);
    out
}

/// A decimal digit.
pub open spec fn is_digit(c: char) -> bool {
    48 <= (c as int) <= 57
}

/// A positive integer written without leading zeros.
pub open spec fn positive_numeral(seg: Seq<char>) -> bool {
    &&& seg.len() > 0
    &&& seg[0] != '0'
    &&& forall|i: int| 0 <= i < seg.len() ==> #[trigger] is_digit(seg[i])
}

fn is_positive_numeral(seg: &str) -> (r: bool)
    ensures
        r == positive_numeral(seg@),
{
    let n = seg.unicode_len();
    if n == 0 {
        return false;
    }
    if seg.get_char(0) == '0' {
        return false;
    }
    let mut i: usize = 0;
    while i < n
        invariant
            n == seg@.len(),
            i <= n,
            forall|j: int| 0 <= j < i ==> #[trigger] is_digit(seg@[j]),
        decreases n - i,
    {
        let c = seg.get_char(i);
        if !((c as u32) >= 48 && (c as u32) <= 57) {
            assert(!is_digit(seg@[i as int]));
            return false;
        }
        i = i + 1;
    }
    true
}

/// Whether `s` contains a dot.
fn has_dot(s: &str) -> (r: bool)
    ensures
        r == s@.contains('.'),
{
    let n = s.unicode_len();
    let mut i: usize = 0;
    while i < n
        invariant
            n == s@.len(),
            i <= n,
            forall|j: int| 0 <= j < i ==> s@[j] != '.',
        decreases n - i,
    {
        if s.get_char(i) == '.' {
            assert(s@[i as int] == '.');
            return true;
        }
        i = i + 1;
    }
    false
}

// ── Messages ────────────────────────────────────────────────────────

pub open spec fn msg_prefix(prefix: Seq<char>) -> Seq<char> {
    joined(seq!["id does not start with area prefix '"@, prefix, "'"@])
}

pub open spec fn msg_segment(seg: Seq<char>) -> Seq<char> {
    joined(seq!["id segment '"@, seg, "' is not a positive integer (no leading zeros)"@])
}

pub open spec fn msg_extend_one(parent: Seq<char>) -> Seq<char> {
    joined(seq!["id should extend parent '"@, parent, "' by exactly one segment"@])
}

pub open spec fn msg_extend(parent: Seq<char>) -> Seq<char> {
    joined(seq!["id does not extend parent '"@, parent, "'"@])
}

pub open spec fn msg_duplicate(area: Seq<char>) -> Seq<char> {
    joined(seq!["duplicate id (also in area '"@, area, "')"@])
}

/// `concat` of three pieces.
fn concat3(a: &str, b: &str, c: &str) -> (r: String)
    ensures
        r@ == joined(seq![a@, b@, c@]),
{
    let parts: [&str; 3] = [a, b, c];
    let r = concat(&parts);
    assert(views(parts@) =~= seq![a@, b@, c@]);
    r
}

// ── Per-concept checks ──────────────────────────────────────────────

/// Findings about the invalid segments among `segs`, in order.
pub open spec fn segment_issues(slug: Seq<char>, id: Seq<char>, segs: Seq<Seq<char>>) -> Seq<(Option<Seq<char>>, Option<Seq<char>>, Seq<char>)>
    decreases segs.len(),
{
    if segs.len() == 0 {
        Seq::empty()
    } else if positive_numeral(segs.last()) {
        segment_issues(slug, id, segs.drop_last())
    } else {
        segment_issues(slug, id, segs.drop_last()).push((Some(slug), Some(id), msg_segment(segs.last())))
    }
}

/// Findings about how `id` extends the innermost enclosing id.
pub open spec fn parent_issues(slug: Seq<char>, id: Seq<char>, anc: Seq<Seq<char>>) -> Seq<(Option<Seq<char>>, Option<Seq<char>>, Seq<char>)> {
    if anc.len() == 0 {
        Seq::empty()
    } else if anc.last().push('.').is_prefix_of(id) {
        if id.skip(anc.last().len() as int + 1).contains('.') {
            seq![(Some(slug), Some(id), msg_extend_one(anc.last()))]
        } else {
            Seq::empty()
        }
    } else {
        seq![(Some(slug), Some(id), msg_extend(anc.last()))]
    }
}

/// Findings about one concept's id, before duplicates are considered: its
/// first segment must be the area prefix, every further segment a positive
/// integer without leading zeros, and it must extend its parent's id by
/// exactly one segment.
pub open spec fn id_issues(prefix: Seq<char>, slug: Seq<char>, id: Seq<char>, anc: Seq<Seq<char>>) -> Seq<(Option<Seq<char>>, Option<Seq<char>>, Seq<char>)> {
    (if split_dots(id)[0] != prefix {
        seq![(Some(slug), Some(id), msg_prefix(prefix))]
    } else {
        Seq::empty()
    }) + segment_issues(slug, id, split_dots(id).drop_first()) + parent_issues(slug, id, anc)
}

/// Appends the findings about one visited concept's id.
fn check_id(v: &Visit, prefix: &str, slug: &str, issues: &mut Vec<CheckIssue>)
    ensures
        issue_views(final(issues)@) == issue_views(old(issues)@) + id_issues(prefix@, slug@, v.id@, strs(v.ancestors@)),
{
    let ghost start = issue_views(issues@);
    let ghost id = v.id@;
    let parts = split_dots_exec(v.id.as_str());
    proof {
        lemma_split_dots_len(id);
    }
    let ghost p = strs(parts@);
    if !crate::ids::str_eq(parts[0].as_str(), prefix) {
        push_issue(issues, Some(to_owned(slug)), Some(copy(&v.id)), concat3("id does not start with area prefix '", prefix, "'"));
    }
    let ghost first = issue_views(issues@);
    assert(first == start + (if p[0] != prefix@ {
        seq![(Some(slug@), Some(id), msg_prefix(prefix@))]
    } else {
        Seq::<(Option<Seq<char>>, Option<Seq<char>>, Seq<char>)>::empty()
    })) by {
        if p[0] != prefix@ {
            assert(first =~= start + seq![(Some(slug@), Some(id), msg_prefix(prefix@))]);
        } else {
            assert(first =~= start + Seq::<(Option<Seq<char>>, Option<Seq<char>>, Seq<char>)>::empty());
        }
    }
    let mut k: usize = 1;
    assert(p.drop_first().take(0) =~= Seq::<Seq<char>>::empty());
    while k < parts.len()
        invariant
            1 <= k <= parts@.len(),
            p == strs(parts@),
            p == split_dots(id),
            id == v.id@,
            issue_views(issues@) == first + segment_issues(slug@, id, p.drop_first().take(k - 1)),
        decreases parts@.len() - k,
    {
        let ghost before = issue_views(issues@);
        assert(p.drop_first().take(k as int).drop_last() =~= p.drop_first().take(k - 1));
        assert(p.drop_first().take(k as int).last() == parts@[k as int]@);
        if !is_positive_numeral(parts[k].as_str()) {
            push_issue(
                issues,
                Some(to_owned(slug)),
                Some(copy(&v.id)),
                concat3("id segment '", parts[k].as_str(), "' is not a positive integer (no leading zeros)"),
            );
        }
        k = k + 1;
    }
    assert(p.drop_first().take(parts@.len() - 1) =~= p.drop_first());
    let ghost second = issue_views(issues@);
    let na = v.ancestors.len();
    if na > 0 {
        let parent = v.ancestors[na - 1].as_str();
        assert(strs(v.ancestors@).last() == parent@);
        if is_dotted_prefix(parent, v.id.as_str()) {
            let np = parent.unicode_len();
            let nid = v.id.unicode_len();
            let suffix = v.id.as_str().substring_char(np + 1, nid);
            assert(suffix@ =~= id.skip(parent@.len() as int + 1));
            if has_dot(suffix) {
                push_issue(issues, Some(to_owned(slug)), Some(copy(&v.id)), concat3("id should extend parent '", parent, "' by exactly one segment"));
            }
        } else {
            push_issue(issues, Some(to_owned(slug)), Some(copy(&v.id)), concat3("id does not extend parent '", parent, "'"));
        }
    }
    proof {
        let pi = parent_issues(slug@, id, strs(v.ancestors@));
        assert(issue_views(issues@) =~= second + pi);
    }
}


// ── Whole-curriculum walk ───────────────────────────────────────────

pub type IssueV = (Option<Seq<char>>, Option<Seq<char>>, Seq<char>);

/// The area index of the last step of `prior` with id `id`.
pub open spec fn last_area(prior: Seq<Step>, id: Seq<char>) -> Option<int>
    decreases prior.len(),
{
    if prior.len() == 0 {
        None
    } else if prior.last().0.id@ == id {
        Some(prior.last().2)
    } else {
        last_area(prior.drop_last(), id)
    }
}

/// The prefix an area file declares (empty for a file that did not load).
pub open spec fn file_prefix(f: Result<AreaFile, String>) -> Seq<char> {
    match f {
        Ok(a) => a.prefix@,
        Err(_) => Seq::empty(),
    }
}

/// Findings about one step of the walk, given the steps before it: its id
/// checks, then a duplicate finding naming the area of the latest earlier
/// concept with the same id.
pub open spec fn step_issues(entries: Seq<ManifestArea>, files: Seq<Result<AreaFile, String>>, prior: Seq<Step>, s: Step) -> Seq<IssueV> {
    let slug = entries[s.2].slug@;
    id_issues(file_prefix(files[s.2]), slug, s.0.id@, s.1) + match last_area(prior, s.0.id@) {
        Some(a) => seq![(Some(slug), Some(s.0.id@), msg_duplicate(entries[a].slug@))],
        None => Seq::empty(),
    }
}

/// Findings about the steps `ss`, which follow the steps `prior`.
pub open spec fn steps_issues(entries: Seq<ManifestArea>, files: Seq<Result<AreaFile, String>>, prior: Seq<Step>, ss: Seq<Step>) -> Seq<IssueV>
    decreases ss.len(),
{
    if ss.len() == 0 {
        Seq::empty()
    } else {
        steps_issues(entries, files, prior, ss.drop_last()) + step_issues(entries, files, prior + ss.drop_last(), ss.last())
    }
}

pub open spec fn msg_area_slug(file_area: Seq<char>, slug: Seq<char>) -> Seq<char> {
    joined(seq!["area slug '"@, file_area, "' in file does not match manifest '"@, slug, "'"@])
}

pub open spec fn msg_area_prefix(file_prefix: Seq<char>, prefix: Seq<char>) -> Seq<char> {
    joined(seq!["prefix '"@, file_prefix, "' in file does not match manifest '"@, prefix, "'"@])
}

pub open spec fn msg_unknown_schema(v: u32) -> Seq<char> {
    joined(seq!["unknown schema_version: "@, crate::text::decimal(v as nat)])
}

/// Findings about an area file itself: its slug and prefix must match
/// the manifest, and it must carry exactly the list its schema version
/// uses (`topics:` for schema 1, `children:` for schema 2).
pub open spec fn header_issues(e: ManifestArea, f: AreaFile) -> Seq<IssueV> {
    let a = Some(e.slug@);
    (if f.area@ != e.slug@ {
        seq![(a, None, msg_area_slug(f.area@, e.slug@))]
    } else {
        Seq::empty()
    }) + (if f.prefix@ != e.prefix@ {
        seq![(a, None, msg_area_prefix(f.prefix@, e.prefix@))]
    } else {
        Seq::empty()
    }) + (if f.schema_version == 1 {
        (if f.topics is None {
            seq![(a, None, "schema_version=1 missing `topics:`"@)]
        } else {
            Seq::empty()
        }) + (if f.children is Some {
            seq![(a, None, "schema_version=1 should not have `children:`"@)]
        } else {
            Seq::empty()
        })
    } else if f.schema_version == 2 {
        (if f.children is None {
            seq![(a, None, "schema_version=2 missing `children:`"@)]
        } else {
            Seq::empty()
        }) + (if f.topics is Some {
            seq![(a, None, "schema_version=2 should not have `topics:`"@)]
        } else {
            Seq::empty()
        })
    } else {
        seq![(a, None, msg_unknown_schema(f.schema_version))]
    })
}

/// The steps of area `i`'s walk (none for a file that did not load).
pub open spec fn area_walk(files: Seq<Result<AreaFile, String>>, cs: Seq<Seq<Concept>>, i: int) -> Seq<Step> {
    if files[i] is Ok {
        walk(cs[i], Seq::empty(), i)
    } else {
        Seq::empty()
    }
}

/// The steps of the walks of the first `k` areas.
pub open spec fn steps_upto(files: Seq<Result<AreaFile, String>>, cs: Seq<Seq<Concept>>, k: int) -> Seq<Step>
    decreases k,
{
    if k <= 0 {
        Seq::empty()
    } else {
        steps_upto(files, cs, k - 1) + area_walk(files, cs, k - 1)
    }
}

/// Findings about area `i`: its load error, or its header findings and
/// the findings of its walk.
pub open spec fn area_issues(entries: Seq<ManifestArea>, files: Seq<Result<AreaFile, String>>, cs: Seq<Seq<Concept>>, i: int) -> Seq<IssueV> {
    match files[i] {
        Err(m) => seq![(Some(entries[i].slug@), None, m@)],
        Ok(f) => header_issues(entries[i], f) + steps_issues(entries, files, steps_upto(files, cs, i), area_walk(files, cs, i)),
    }
}

/// The findings of the walks of the first `k` areas.
pub open spec fn walk_issues(entries: Seq<ManifestArea>, files: Seq<Result<AreaFile, String>>, cs: Seq<Seq<Concept>>, k: int) -> Seq<IssueV>
    decreases k,
{
    if k <= 0 {
        Seq::empty()
    } else {
        walk_issues(entries, files, cs, k - 1) + area_issues(entries, files, cs, k - 1)
    }
}

/// The concepts of each area that loaded.
pub open spec fn areas_concepts(cs: Seq<Seq<Concept>>, files: Seq<Result<AreaFile, String>>) -> bool {
    &&& cs.len() == files.len()
    &&& forall|i: int| 0 <= i < files.len() ==> #[trigger] area_loaded(cs[i], files[i])
}

/// `cs` are the concepts of an area file that loaded, none otherwise.
pub open spec fn area_loaded(cs: Seq<Concept>, f: Result<AreaFile, String>) -> bool {
    match f {
        Ok(a) => area_concepts(cs, a),
        Err(_) => cs.len() == 0,
    }
}

proof fn lemma_walk_area(cs: Seq<Concept>, anc: Seq<Seq<char>>, area: int)
    ensures
        forall|k: int| 0 <= k < walk(cs, anc, area).len() ==> #[trigger] walk(cs, anc, area)[k].2 == area,
    decreases cs,
{
    if cs.len() > 0 {
        assert(decreases_to!(cs => cs.drop_first()));
        let w1 = walk(cs[0].children@, anc.push(cs[0].id@), area);
        let w2 = walk(cs.drop_first(), anc, area);
        lemma_walk_area(cs[0].children@, anc.push(cs[0].id@), area);
        lemma_walk_area(cs.drop_first(), anc, area);
        let w = walk(cs, anc, area);
        assert(w == seq![(cs[0], anc, area)] + w1 + w2);
        assert forall|k: int| 0 <= k < w.len() implies #[trigger] w[k].2 == area by {
            if k == 0 {
            } else if k < 1 + w1.len() {
                assert(w[k] == w1[k - 1]);
            } else {
                assert(w[k] == w2[k - 1 - w1.len()]);
            }
        }
    }
}

proof fn lemma_steps_upto_area(files: Seq<Result<AreaFile, String>>, cs: Seq<Seq<Concept>>, k: int)
    ensures
        forall|j: int| 0 <= j < steps_upto(files, cs, k).len() ==> 0 <= #[trigger] steps_upto(files, cs, k)[j].2 < k,
    decreases k,
{
    if k > 0 {
        lemma_steps_upto_area(files, cs, k - 1);
        if files[k - 1] is Ok {
            lemma_walk_area(cs[k - 1], Seq::empty(), k - 1);
        }
        let a = steps_upto(files, cs, k - 1);
        let b = area_walk(files, cs, k - 1);
        assert forall|j: int| 0 <= j < (a + b).len() implies 0 <= #[trigger] (a + b)[j].2 < k by {
            if j < a.len() {
                assert((a + b)[j] == a[j]);
            } else {
                assert((a + b)[j] == b[j - a.len()]);
            }
        }
    }
}

/// Area index of the latest of `visits[..j]` with id `id`.
fn last_area_before(visits: &Vec<Visit>, j: usize, id: &str, Ghost(steps): Ghost<Seq<Step>>) -> (r: Option<usize>)
    requires
        j <= visits@.len(),
        j <= steps.len(),
        forall|i: int| 0 <= i < j ==> #[trigger] records(visits@[i], steps[i]),
    ensures
        match r {
            Some(a) => last_area(steps.take(j as int), id@) == Some(a as int) && exists|k: int| 0 <= k < j && visits@[k].area == a,
            None => last_area(steps.take(j as int), id@) is None,
        },
{
    let mut k: usize = j;
    while k > 0
        invariant
            k <= j,
            j <= visits@.len(),
            j <= steps.len(),
            forall|i: int| 0 <= i < j ==> #[trigger] records(visits@[i], steps[i]),
            last_area(steps.take(j as int), id@) == last_area(steps.take(k as int), id@),
        decreases k,
    {
        assert(steps.take(k as int).drop_last() =~= steps.take(k - 1));
        assert(records(visits@[k - 1], steps[k - 1]));
        if crate::ids::str_eq(visits[k - 1].id.as_str(), id) {
            return Some(visits[k - 1].area);
        }
        k = k - 1;
    }
    None
}


proof fn lemma_steps_upto_frame(files: Seq<Result<AreaFile, String>>, cs: Seq<Seq<Concept>>, cs2: Seq<Seq<Concept>>, k: int)
    requires
        forall|j: int| 0 <= j < k ==> cs[j] == cs2[j],
    ensures
        steps_upto(files, cs, k) == steps_upto(files, cs2, k),
    decreases k,
{
    if k > 0 {
        lemma_steps_upto_frame(files, cs, cs2, k - 1);
    }
}

proof fn lemma_walk_issues_frame(entries: Seq<ManifestArea>, files: Seq<Result<AreaFile, String>>, cs: Seq<Seq<Concept>>, cs2: Seq<Seq<Concept>>, k: int)
    requires
        forall|j: int| 0 <= j < k ==> cs[j] == cs2[j],
    ensures
        walk_issues(entries, files, cs, k) == walk_issues(entries, files, cs2, k),
    decreases k,
{
    if k > 0 {
        lemma_walk_issues_frame(entries, files, cs, cs2, k - 1);
        lemma_steps_upto_frame(files, cs, cs2, k - 1);
    }
}

/// Appends the findings about the header of an area file.
fn check_header(e: &ManifestArea, f: &AreaFile, issues: &mut Vec<CheckIssue>)
    ensures
        issue_views(final(issues)@) == issue_views(old(issues)@) + header_issues(*e, *f),
{
    let ghost start = issue_views(issues@);
    let ghost a = Some(e.slug@);
    if !crate::ids::str_eq(f.area.as_str(), e.slug.as_str()) {
        let parts: [&str; 5] = ["area slug '", f.area.as_str(), "' in file does not match manifest '", e.slug.as_str(), "'"];
        let m = concat(&parts);
        assert(views(parts@) =~= seq!["area slug '"@, f.area@, "' in file does not match manifest '"@, e.slug@, "'"@]);
        push_issue(issues, Some(copy(&e.slug)), None, m);
    }
    let ghost i1 = issue_views(issues@);
    if !crate::ids::str_eq(f.prefix.as_str(), e.prefix.as_str()) {
        let parts: [&str; 5] = ["prefix '", f.prefix.as_str(), "' in file does not match manifest '", e.prefix.as_str(), "'"];
        let m = concat(&parts);
        assert(views(parts@) =~= seq!["prefix '"@, f.prefix@, "' in file does not match manifest '"@, e.prefix@, "'"@]);
        push_issue(issues, Some(copy(&e.slug)), None, m);
    }
    let ghost i2 = issue_views(issues@);
    if f.schema_version == 1 {
        if f.topics.is_none() {
            push_issue(issues, Some(copy(&e.slug)), None, to_owned("schema_version=1 missing `topics:`"));
        }
        if f.children.is_some() {
            push_issue(issues, Some(copy(&e.slug)), None, to_owned("schema_version=1 should not have `children:`"));
        }
    } else if f.schema_version == 2 {
        if f.children.is_none() {
            push_issue(issues, Some(copy(&e.slug)), None, to_owned("schema_version=2 missing `children:`"));
        }
        if f.topics.is_some() {
            push_issue(issues, Some(copy(&e.slug)), None, to_owned("schema_version=2 should not have `topics:`"));
        }
    } else {
        let num = crate::text::decimal_string(f.schema_version as u64);
        let parts: [&str; 2] = ["unknown schema_version: ", num.as_str()];
        let m = concat(&parts);
        assert(views(parts@) =~= seq!["unknown schema_version: "@, crate::text::decimal(f.schema_version as nat)]);
        push_issue(issues, Some(copy(&e.slug)), None, m);
    }
    assert(issue_views(issues@) =~= start + header_issues(*e, *f));
}

/// The walk phase: every area's load error or header findings, then the
/// findings about each concept of its walk; also returns the visits of
/// all walks, in order, and the concepts each area loaded.
fn walk_areas(entries: &Vec<ManifestArea>, files: Vec<Result<AreaFile, String>>) -> (r: (Vec<CheckIssue>, Vec<Visit>, Ghost<Seq<Seq<Concept>>>))
    requires
        entries@.len() == files@.len(),
    ensures
        areas_concepts(r.2@, files@),
        issue_views(r.0@) == walk_issues(entries@, files@, r.2@, files@.len() as int),
        r.1@.len() == steps_upto(files@, r.2@, files@.len() as int).len(),
        forall|k: int| 0 <= k < r.1@.len() ==> #[trigger] records(r.1@[k], steps_upto(files@, r.2@, files@.len() as int)[k]),
        forall|k: int| 0 <= k < r.1@.len() ==> #[trigger] r.1@[k].ancestors@.len() <= k,
{
    let ghost files0 = files@;
    let ghost n = files0.len();
    let mut files = files;
    let mut issues: Vec<CheckIssue> = Vec::new();
    let mut visits: Vec<Visit> = Vec::new();
    let ghost mut cs: Seq<Seq<Concept>> = Seq::new(n, |k: int| Seq::<Concept>::empty());
    let mut i: usize = 0;
    let nf = files.len();
    while files.len() > 0
        invariant
            nf == n,
            n == files0.len(),
            entries@.len() == n,
            i + files@.len() == n,
            forall|k: int| 0 <= k < files@.len() ==> files@[k] == files0[i + k],
            cs.len() == n,
            forall|k: int| 0 <= k < i ==> #[trigger] area_loaded(cs[k], files0[k]),
            forall|k: int| i <= k < n ==> cs[k].len() == 0,
            issue_views(issues@) == walk_issues(entries@, files0, cs, i as int),
            visits@.len() == steps_upto(files0, cs, i as int).len(),
            forall|k: int| 0 <= k < visits@.len() ==> #[trigger] records(visits@[k], steps_upto(files0, cs, i as int)[k]),
            forall|k: int| 0 <= k < visits@.len() ==> #[trigger] visits@[k].ancestors@.len() <= k,
        decreases files@.len(),
    {
        let f = files.remove(0);
        assert(f == files0[i as int]);
        let e = &entries[i];
        let ghost prior = steps_upto(files0, cs, i as int);
        let ghost before = issue_views(issues@);
        match f {
            Err(msg) => {
                push_issue(&mut issues, Some(copy(&e.slug)), None, msg);
                proof {
                    assert(area_walk(files0, cs, i as int) =~= Seq::<Step>::empty());
                    assert(steps_upto(files0, cs, i + 1) =~= prior);
                    assert(area_loaded(cs[i as int], files0[i as int]));
                }
            },
            Ok(a) => {
                check_header(e, &a, &mut issues);
                let ghost after_header = issue_views(issues@);
                let prefix = copy(&a.prefix);
                let concepts = a.into_concepts();
                let ghost cs_old = cs;
                proof {
                    cs = cs.update(i as int, concepts@);
                    lemma_steps_upto_frame(files0, cs_old, cs, i as int);
                    lemma_walk_issues_frame(entries@, files0, cs_old, cs, i as int);
                    assert(area_loaded(cs[i as int], files0[i as int]));
                }
                let ghost aw = area_walk(files0, cs, i as int);
                assert(aw == walk(concepts@, Seq::empty(), i as int));
                let ghost all = steps_upto(files0, cs, i + 1);
                assert(all == prior + aw);
                proof {
                    lemma_walk_area(concepts@, Seq::empty(), i as int);
                }
                // Collect the visits of this area's trees.
                let start = visits.len();
                let mut anc: Vec<String> = Vec::new();
                let mut r: usize = 0;
                assert(walk(concepts@.take(0), Seq::empty(), i as int) =~= Seq::<Step>::empty());
                while r < concepts.len()
                    invariant
                        r <= concepts@.len(),
                        anc@.len() == 0,
                        start == prior.len(),
                        visits@.len() == start + walk(concepts@.take(r as int), Seq::empty(), i as int).len(),
                        forall|k: int| 0 <= k < start ==> #[trigger] records(visits@[k], prior[k]),
                        forall|k: int|
                            0 <= k < walk(concepts@.take(r as int), Seq::empty(), i as int).len() ==> #[trigger] records(
                                visits@[start + k],
                                walk(concepts@.take(r as int), Seq::empty(), i as int)[k],
                            ),
                        forall|k: int| 0 <= k < visits@.len() ==> #[trigger] visits@[k].ancestors@.len() <= k,
                    decreases concepts@.len() - r,
                {
                    let ghost vb = visits@;
                    let ghost wr = walk(concepts@.take(r as int), Seq::empty(), i as int);
                    assert(strs(anc@) =~= Seq::<Seq<char>>::empty());
                    collect(&concepts[r], &mut anc, i, &mut visits);
                    proof {
                        assert(concepts@.take(r + 1) =~= concepts@.take(r as int) + seq![concepts@[r as int]]);
                        lemma_walk_concat(concepts@.take(r as int), seq![concepts@[r as int]], Seq::empty(), i as int);
                        let wc = walk(seq![concepts@[r as int]], Seq::empty(), i as int);
                        assert forall|k: int| 0 <= k < start implies #[trigger] records(visits@[k], prior[k]) by {
                            assert(visits@[k] == vb[k]);
                        }
                        assert forall|k: int| 0 <= k < (wr + wc).len() implies #[trigger] records(visits@[start + k], (wr + wc)[k]) by {
                            if k < wr.len() {
                                assert(visits@[start + k] == vb[start + k]);
                            } else {
                                assert(records(visits@[vb.len() + (k - wr.len())], wc[k - wr.len()]));
                            }
                        }
                        assert forall|k: int| 0 <= k < visits@.len() implies #[trigger] visits@[k].ancestors@.len() <= k by {
                            if k < vb.len() {
                                assert(visits@[k] == vb[k]);
                            }
                        }
                    }
                    r = r + 1;
                }
                assert(concepts@.take(concepts@.len() as int) =~= concepts@);
                assert forall|k: int| 0 <= k < visits@.len() implies #[trigger] records(visits@[k], all[k]) by {
                    if k >= start {
                        assert(records(visits@[start + (k - start)], aw[k - start]));
                    }
                }
                // Check each visit of this area.
                let mut j: usize = start;
                assert(aw.take(0) =~= Seq::<Step>::empty());
                while j < visits.len()
                    invariant
                        start <= j <= visits@.len(),
                        start == prior.len(),
                        all == prior + aw,
                        all == steps_upto(files0, cs, i + 1),
                        n == entries@.len(),
                        n == files0.len(),
                        i < n,
                        visits@.len() == all.len(),
                        forall|k: int| 0 <= k < visits@.len() ==> #[trigger] records(visits@[k], all[k]),
                        prefix@ == file_prefix(files0[i as int]),
                        i < entries@.len(),
                        aw == area_walk(files0, cs, i as int),
                        forall|k: int| 0 <= k < aw.len() ==> #[trigger] aw[k].2 == i as int,
                        issue_views(issues@) == after_header + steps_issues(entries@, files0, prior, aw.take(j - start)),
                    decreases visits@.len() - j,
                {
                    let ghost m = j - start;
                    let ghost st = aw[m];
                    assert(all[j as int] == st);
                    assert(aw.take(m + 1).drop_last() =~= aw.take(m));
                    assert(aw.take(m + 1).last() == st);
                    assert(prior + aw.take(m) =~= all.take(j as int));
                    let ghost before_j = issue_views(issues@);
                    let v = &visits[j];
                    assert(records(*v, st));
                    check_id(v, prefix.as_str(), entries[i].slug.as_str(), &mut issues);
                    let ghost after_id = issue_views(issues@);
                    match last_area_before(&visits, j, visits[j].id.as_str(), Ghost(all)) {
                        Some(a) => {
                            assert(a < entries@.len()) by {
                                let k = choose|k: int| 0 <= k < j && visits@[k].area == a;
                                assert(records(visits@[k], all[k]));
                                lemma_steps_upto_area(files0, cs, i + 1);
                            }
                            let msg = concat3("duplicate id (also in area '", entries[a].slug.as_str(), "')");
                            push_issue(&mut issues, Some(copy(&entries[i].slug)), Some(copy(&visits[j].id)), msg);
                        },
                        None => {},
                    }
                    proof {
                        let si = step_issues(entries@, files0, prior + aw.take(m), st);
                        assert(st.2 == i as int);
                        assert(issue_views(issues@) =~= before_j + si);
                        assert(steps_issues(entries@, files0, prior, aw.take(m + 1)) == steps_issues(entries@, files0, prior, aw.take(m)) + si);
                    }
                    j = j + 1;
                }
                assert(aw.take(aw.len() as int) =~= aw);
                proof {
                    assert(walk_issues(entries@, files0, cs, i + 1) == walk_issues(entries@, files0, cs, i as int) + area_issues(entries@, files0, cs, i as int));
                }
            },
        }
        i = i + 1;
    }
    (issues, visits, Ghost(cs))
}


// ── Counts ──────────────────────────────────────────────────────────

pub open spec fn count_clusters(ss: Seq<Step>) -> nat
    decreases ss.len(),
{
    if ss.len() == 0 {
        0
    } else {
        count_clusters(ss.drop_last()) + if ss.last().0.spec_is_atom() {
            0nat
        } else {
            1nat
        }
    }
}

pub open spec fn count_atoms(ss: Seq<Step>) -> nat
    decreases ss.len(),
{
    if ss.len() == 0 {
        0
    } else {
        count_atoms(ss.drop_last()) + if ss.last().0.spec_is_atom() {
            1nat
        } else {
            0nat
        }
    }
}

/// The greatest depth of a step (a root has depth 1); 0 for no steps.
pub open spec fn max_depth(ss: Seq<Step>) -> nat
    decreases ss.len(),
{
    if ss.len() == 0 {
        0
    } else if ss.last().1.len() + 1 > max_depth(ss.drop_last()) {
        ss.last().1.len() + 1
    } else {
        max_depth(ss.drop_last())
    }
}

/// The prerequisite edges of the steps: the position of the step that
/// declares it and the prerequisite id, in order.
pub open spec fn step_edges(ss: Seq<Step>) -> Seq<(int, Seq<char>)>
    decreases ss.len(),
{
    if ss.len() == 0 {
        Seq::empty()
    } else {
        step_edges(ss.drop_last()) + ss.last().0.prereqs().map_values(|p: Seq<char>| (ss.len() - 1, p))
    }
}

/// Counts of clusters, atoms and the greatest depth over the visits.
fn count_visits(visits: &Vec<Visit>, Ghost(all): Ghost<Seq<Step>>) -> (r: (usize, usize, usize))
    requires
        visits@.len() == all.len(),
        forall|k: int| 0 <= k < visits@.len() ==> #[trigger] records(visits@[k], all[k]),
        forall|k: int| 0 <= k < visits@.len() ==> #[trigger] visits@[k].ancestors@.len() <= k,
    ensures
        r.0 == count_clusters(all),
        r.1 == count_atoms(all),
        r.2 == max_depth(all),
{
    let mut clusters: usize = 0;
    let mut atoms: usize = 0;
    let mut depth: usize = 0;
    let mut k: usize = 0;
    while k < visits.len()
        invariant
            k <= visits@.len(),
            visits@.len() == all.len(),
            forall|k: int| 0 <= k < visits@.len() ==> #[trigger] records(visits@[k], all[k]),
            forall|k: int| 0 <= k < visits@.len() ==> #[trigger] visits@[k].ancestors@.len() <= k,
            clusters + atoms == k,
            clusters == count_clusters(all.take(k as int)),
            atoms == count_atoms(all.take(k as int)),
            depth == max_depth(all.take(k as int)),
            depth <= k,
        decreases visits@.len() - k,
    {
        assert(all.take(k + 1).drop_last() =~= all.take(k as int));
        assert(all.take(k + 1).last() == all[k as int]);
        assert(records(visits@[k as int], all[k as int]));
        let v = &visits[k];
        if v.is_atom {
            atoms = atoms + 1;
        } else {
            clusters = clusters + 1;
        }
        assert(visits@[k as int].ancestors@.len() <= k);
        let d = v.ancestors.len() + 1;
        assert(strs(v.ancestors@).len() == v.ancestors@.len());
        if d > depth {
            depth = d;
        }
        k = k + 1;
    }
    assert(all.take(k as int) =~= all);
    (clusters, atoms, depth)
}

// ── Prerequisites ───────────────────────────────────────────────────

pub open spec fn msg_unknown_prereq(p: Seq<char>) -> Seq<char> {
    joined(seq!["prerequisite '"@, p, "' references unknown id"@])
}

/// Some step has id `p`.
pub open spec fn known(all: Seq<Step>, p: Seq<char>) -> bool {
    exists|k: int| 0 <= k < all.len() && all[k].0.id@ == p
}

/// The slug of the area of the latest step with id `id`.
pub open spec fn area_of(entries: Seq<ManifestArea>, all: Seq<Step>, id: Seq<char>) -> Option<Seq<char>> {
    match last_area(all, id) {
        Some(a) => Some(entries[a].slug@),
        None => None,
    }
}

/// Findings about the prerequisites `ps` of step `s` that name no concept.
pub open spec fn unknown_issues(entries: Seq<ManifestArea>, all: Seq<Step>, s: Step, ps: Seq<Seq<char>>) -> Seq<IssueV>
    decreases ps.len(),
{
    if ps.len() == 0 {
        Seq::empty()
    } else if known(all, ps.last()) {
        unknown_issues(entries, all, s, ps.drop_last())
    } else {
        unknown_issues(entries, all, s, ps.drop_last()).push((area_of(entries, all, s.0.id@), Some(s.0.id@), msg_unknown_prereq(ps.last())))
    }
}

/// Findings about the prerequisites of the steps `ss` that name no
/// concept of the whole walk `all`.
pub open spec fn prereq_issues(entries: Seq<ManifestArea>, all: Seq<Step>, ss: Seq<Step>) -> Seq<IssueV>
    decreases ss.len(),
{
    if ss.len() == 0 {
        Seq::empty()
    } else {
        prereq_issues(entries, all, ss.drop_last()) + unknown_issues(entries, all, ss.last(), ss.last().0.prereqs())
    }
}

/// Whether some visit has id `p`.
fn is_known(visits: &Vec<Visit>, p: &str, Ghost(all): Ghost<Seq<Step>>) -> (r: bool)
    requires
        visits@.len() == all.len(),
        forall|k: int| 0 <= k < visits@.len() ==> #[trigger] records(visits@[k], all[k]),
    ensures
        r == known(all, p@),
{
    let mut k: usize = 0;
    while k < visits.len()
        invariant
            k <= visits@.len(),
            visits@.len() == all.len(),
            forall|k: int| 0 <= k < visits@.len() ==> #[trigger] records(visits@[k], all[k]),
            forall|x: int| 0 <= x < k ==> all[x].0.id@ != p@,
        decreases visits@.len() - k,
    {
        assert(records(visits@[k as int], all[k as int]));
        if crate::ids::str_eq(visits[k].id.as_str(), p) {
            return true;
        }
        k = k + 1;
    }
    false
}

/// One prerequisite edge: the position of the declaring visit and the
/// prerequisite id.
#[derive(Debug)]
pub struct Edge {
    pub from: usize,
    pub to: String,
}

/// The prerequisite phase: counts every edge, reports each prerequisite
/// that names no concept, and returns the edges.
fn check_prereqs(entries: &Vec<ManifestArea>, visits: &Vec<Visit>, issues: &mut Vec<CheckIssue>, Ghost(all): Ghost<Seq<Step>>) -> (edges: Vec<Edge>)
    requires
        visits@.len() == all.len(),
        forall|k: int| 0 <= k < visits@.len() ==> #[trigger] records(visits@[k], all[k]),
        forall|k: int| 0 <= k < all.len() ==> 0 <= #[trigger] all[k].2 < entries@.len(),
    ensures
        issue_views(final(issues)@) == issue_views(old(issues)@) + prereq_issues(entries@, all, all),
        edges@.len() == step_edges(all).len(),
        forall|e: int| 0 <= e < edges@.len() ==> (#[trigger] edges@[e]).from == step_edges(all)[e].0 && edges@[e].to@ == step_edges(all)[e].1,
{
    let ghost start = issue_views(issues@);
    let mut edges: Vec<Edge> = Vec::new();
    let mut k: usize = 0;
    while k < visits.len()
        invariant
            k <= visits@.len(),
            visits@.len() == all.len(),
            forall|k: int| 0 <= k < visits@.len() ==> #[trigger] records(visits@[k], all[k]),
            forall|k: int| 0 <= k < all.len() ==> 0 <= #[trigger] all[k].2 < entries@.len(),
            issue_views(issues@) == start + prereq_issues(entries@, all, all.take(k as int)),
            edges@.len() == step_edges(all.take(k as int)).len(),
            forall|e: int| 0 <= e < edges@.len() ==> (#[trigger] edges@[e]).from == step_edges(all.take(k as int))[e].0 && edges@[e].to@ == step_edges(all.take(k as int))[e].1,
        decreases visits@.len() - k,
    {
        let ghost st = all[k as int];
        assert(records(visits@[k as int], st));
        assert(all.take(k + 1).drop_last() =~= all.take(k as int));
        assert(all.take(k + 1).last() == st);
        let v = &visits[k];
        let ghost ps = st.0.prereqs();
        assert(strs(v.prerequisites@) == ps);
        let ghost area = area_of(entries@, all, st.0.id@);
        let ar = last_area_before(visits, visits.len(), v.id.as_str(), Ghost(all));
        assert(all.take(all.len() as int) =~= all);
        let ghost base_issues = issue_views(issues@);
        let ghost base_edges = edges@;
        let ghost pre = step_edges(all.take(k as int));
        let mut m: usize = 0;
        assert(ps.take(0) =~= Seq::<Seq<char>>::empty());
        while m < v.prerequisites.len()
            invariant
                m <= v.prerequisites@.len(),
                ps == strs(v.prerequisites@),
                visits@.len() == all.len(),
                forall|k: int| 0 <= k < visits@.len() ==> #[trigger] records(visits@[k], all[k]),
                forall|k: int| 0 <= k < all.len() ==> 0 <= #[trigger] all[k].2 < entries@.len(),
                k < all.len(),
                st == all[k as int],
                v.id@ == st.0.id@,
                area == area_of(entries@, all, st.0.id@),
                match ar {
                    Some(a) => last_area(all, st.0.id@) == Some(a as int),
                    None => last_area(all, st.0.id@) is None,
                },
                issue_views(issues@) == base_issues + unknown_issues(entries@, all, st, ps.take(m as int)),
                edges@.len() == base_edges.len() + m,
                forall|e: int| 0 <= e < base_edges.len() ==> edges@[e] == base_edges[e],
                forall|e: int| 0 <= e < m ==> (#[trigger] edges@[base_edges.len() + e]).from == k && edges@[base_edges.len() + e].to@ == ps[e],
            decreases v.prerequisites@.len() - m,
        {
            let p = v.prerequisites[m].as_str();
            assert(ps[m as int] == p@);
            assert(ps.take(m + 1).drop_last() =~= ps.take(m as int));
            assert(ps.take(m + 1).last() == p@);
            if !is_known(visits, p, Ghost(all)) {
                let area_name = match ar {
                    Some(a) => {
                        assert(0 <= a < entries@.len()) by {
                            lemma_last_area_in(all, st.0.id@);
                        }
                        Some(copy(&entries[a].slug))
                    },
                    None => None,
                };
                push_issue(issues, area_name, Some(copy(&v.id)), concat3("prerequisite '", p, "' references unknown id"));
            }
            let ghost eb = edges@;
            edges.push(Edge { from: k, to: to_owned(p) });
            assert forall|e: int| 0 <= e < base_edges.len() implies edges@[e] == base_edges[e] by {
                assert(edges@[e] == eb[e]);
            }
            m = m + 1;
        }
        assert(ps.take(ps.len() as int) =~= ps);
        proof {
            let add = ps.map_values(|p: Seq<char>| (k as int, p));
            assert(step_edges(all.take(k + 1)) == pre + add);
            assert forall|e: int| 0 <= e < edges@.len() implies (#[trigger] edges@[e]).from == (pre + add)[e].0 && edges@[e].to@ == (pre + add)[e].1 by {
                if e >= base_edges.len() {
                    let i = e - base_edges.len();
                    assert(edges@[base_edges.len() + i].from == k);
                    assert((pre + add)[e] == add[i]);
                    assert(add[i] == (k as int, ps[i]));
                } else {
                    assert(edges@[e] == base_edges[e]);
                    assert((pre + add)[e] == pre[e]);
                }
            }
        }
        k = k + 1;
    }
    assert(all.take(k as int) =~= all);
    edges
}

proof fn lemma_last_area_in(all: Seq<Step>, id: Seq<char>)
    ensures
        last_area(all, id) matches Some(a) ==> exists|k: int| 0 <= k < all.len() && all[k].2 == a,
    decreases all.len(),
{
    if all.len() > 0 {
        lemma_last_area_in(all.drop_last(), id);
        if last_area(all, id) is Some {
            let a = last_area(all, id)->0;
            if all.last().0.id@ != id {
                let k = choose|k: int| 0 <= k < all.drop_last().len() && all.drop_last()[k].2 == a;
                assert(all[k] == all.drop_last()[k]);
            } else {
                assert(all[all.len() - 1].2 == a);
            }
        }
    }
}


// ── Orphans ─────────────────────────────────────────────────────────

proof fn lemma_step_edges_from(ss: Seq<Step>)
    ensures
        forall|i: int| 0 <= i < step_edges(ss).len() ==> 0 <= #[trigger] step_edges(ss)[i].0 < ss.len(),
    decreases ss.len(),
{
    if ss.len() > 0 {
        lemma_step_edges_from(ss.drop_last());
        let a = step_edges(ss.drop_last());
        let b = ss.last().0.prereqs().map_values(|p: Seq<char>| (ss.len() - 1, p));
        assert forall|i: int| 0 <= i < (a + b).len() implies 0 <= #[trigger] (a + b)[i].0 < ss.len() by {
            if i < a.len() {
                assert((a + b)[i] == a[i]);
            } else {
                assert((a + b)[i] == b[i - a.len()]);
            }
        }
    }
}

/// The edge `e` makes step `s` a prerequisite of another concept: it is
/// declared by a concept with another id and names `s` or one of the
/// clusters enclosing `s`.
pub open spec fn covers(all: Seq<Step>, e: (int, Seq<char>), s: Step) -> bool {
    &&& 0 <= e.0 < all.len()
    &&& all[e.0].0.id@ != s.0.id@
    &&& (e.1 == s.0.id@ || s.1.contains(e.1))
}

/// Some edge of the walk makes `s` a prerequisite of another concept.
pub open spec fn covered(all: Seq<Step>, s: Step) -> bool {
    exists|i: int| 0 <= i < step_edges(all).len() && #[trigger] covers(all, step_edges(all)[i], s)
}

pub open spec fn msg_orphan(name: Seq<char>) -> Seq<char> {
    joined(seq!["orphan atom '"@, name, "': no other concept lists it or an enclosing cluster as a prerequisite (mark `terminal: true` if intended)"@])
}

/// Findings about the atoms among `ss` that no other concept depends on,
/// unless they are marked terminal.
pub open spec fn orphan_issues(entries: Seq<ManifestArea>, all: Seq<Step>, ss: Seq<Step>) -> Seq<IssueV>
    decreases ss.len(),
{
    if ss.len() == 0 {
        Seq::empty()
    } else {
        let s = ss.last();
        orphan_issues(entries, all, ss.drop_last()) + if s.0.spec_is_atom() && !s.0.terminal && !covered(all, s) {
            seq![(Some(entries[s.2].slug@), Some(s.0.id@), msg_orphan(s.0.name@))]
        } else {
            Seq::empty()
        }
    }
}

/// Whether some edge makes the visit at `k` a prerequisite of another
/// concept.
fn is_covered(visits: &Vec<Visit>, edges: &Vec<Edge>, k: usize, Ghost(all): Ghost<Seq<Step>>) -> (r: bool)
    requires
        k < visits@.len(),
        visits@.len() == all.len(),
        forall|k: int| 0 <= k < visits@.len() ==> #[trigger] records(visits@[k], all[k]),
        edges@.len() == step_edges(all).len(),
        forall|e: int| 0 <= e < edges@.len() ==> (#[trigger] edges@[e]).from == step_edges(all)[e].0 && edges@[e].to@ == step_edges(all)[e].1,
    ensures
        r == covered(all, all[k as int]),
{
    proof {
        lemma_step_edges_from(all);
    }
    let v = &visits[k];
    assert(records(*v, all[k as int]));
    let mut i: usize = 0;
    while i < edges.len()
        invariant
            i <= edges@.len(),
            k < visits@.len(),
            *v == visits@[k as int],
            visits@.len() == all.len(),
            forall|k: int| 0 <= k < visits@.len() ==> #[trigger] records(visits@[k], all[k]),
            records(*v, all[k as int]),
            edges@.len() == step_edges(all).len(),
            forall|e: int| 0 <= e < edges@.len() ==> (#[trigger] edges@[e]).from == step_edges(all)[e].0 && edges@[e].to@ == step_edges(all)[e].1,
            forall|e: int| 0 <= e < step_edges(all).len() ==> 0 <= #[trigger] step_edges(all)[e].0 < all.len(),
            forall|e: int| 0 <= e < i ==> !#[trigger] covers(all, step_edges(all)[e], all[k as int]),
        decreases edges@.len() - i,
    {
        let e = &edges[i];
        let f = e.from;
        assert(0 <= f < all.len());
        assert(records(visits@[f as int], all[f as int]));
        if !crate::ids::str_eq(visits[f].id.as_str(), v.id.as_str()) {
            let names = crate::ids::str_eq(e.to.as_str(), v.id.as_str())
                || crate::ids::vec_contains(&v.ancestors, e.to.as_str());
            if names {
                assert(covers(all, step_edges(all)[i as int], all[k as int]));
                return true;
            }
        }
        i = i + 1;
    }
    false
}

/// The orphan phase: reports the atoms no other concept depends on.
fn check_orphans(entries: &Vec<ManifestArea>, visits: &Vec<Visit>, edges: &Vec<Edge>, issues: &mut Vec<CheckIssue>, Ghost(all): Ghost<Seq<Step>>)
    requires
        visits@.len() == all.len(),
        forall|k: int| 0 <= k < visits@.len() ==> #[trigger] records(visits@[k], all[k]),
        forall|k: int| 0 <= k < all.len() ==> 0 <= #[trigger] all[k].2 < entries@.len(),
        edges@.len() == step_edges(all).len(),
        forall|e: int| 0 <= e < edges@.len() ==> (#[trigger] edges@[e]).from == step_edges(all)[e].0 && edges@[e].to@ == step_edges(all)[e].1,
    ensures
        issue_views(final(issues)@) == issue_views(old(issues)@) + orphan_issues(entries@, all, all),
{
    let ghost start = issue_views(issues@);
    let mut k: usize = 0;
    while k < visits.len()
        invariant
            k <= visits@.len(),
            visits@.len() == all.len(),
            forall|k: int| 0 <= k < visits@.len() ==> #[trigger] records(visits@[k], all[k]),
            forall|k: int| 0 <= k < all.len() ==> 0 <= #[trigger] all[k].2 < entries@.len(),
            edges@.len() == step_edges(all).len(),
            forall|e: int| 0 <= e < edges@.len() ==> (#[trigger] edges@[e]).from == step_edges(all)[e].0 && edges@[e].to@ == step_edges(all)[e].1,
            issue_views(issues@) == start + orphan_issues(entries@, all, all.take(k as int)),
        decreases visits@.len() - k,
    {
        assert(all.take(k + 1).drop_last() =~= all.take(k as int));
        assert(all.take(k + 1).last() == all[k as int]);
        assert(records(visits@[k as int], all[k as int]));
        let v = &visits[k];
        if v.is_atom && !v.terminal && !is_covered(visits, edges, k, Ghost(all)) {
            let slug = copy(&entries[v.area].slug);
            push_issue(issues, Some(slug), Some(copy(&v.id)), concat3("orphan atom '", v.name.as_str(), "': no other concept lists it or an enclosing cluster as a prerequisite (mark `terminal: true` if intended)"));
        }
        k = k + 1;
    }
    assert(all.take(k as int) =~= all);
}


// ── Cycles ──────────────────────────────────────────────────────────

/// `k` is strictly increasing.
pub open spec fn strictly_sorted(k: Seq<Seq<char>>) -> bool {
    forall|i: int, j: int| 0 <= i < j < k.len() ==> str_lt(#[trigger] k[i], #[trigger] k[j])
}

/// The members of `s` in increasing order.
pub open spec fn sorted_keys(s: Set<Seq<char>>) -> Seq<Seq<char>> {
    choose|k: Seq<Seq<char>>| strictly_sorted(k) && k.to_set() == s
}

/// Two increasing enumerations of one set are equal.
pub proof fn lemma_sorted_unique(a: Seq<Seq<char>>, b: Seq<Seq<char>>)
    requires
        strictly_sorted(a),
        strictly_sorted(b),
        a.to_set() == b.to_set(),
    ensures
        a == b,
    decreases a.len(),
{
    if a.len() == 0 {
        if b.len() > 0 {
            assert(b.to_set().contains(b[0]));
        }
        assert(a =~= b);
    } else if b.len() == 0 {
        assert(a.to_set().contains(a[0]));
    } else {
        // The first elements are both the least member.
        assert(b.to_set().contains(a[0]));
        assert(a.to_set().contains(b[0]));
        let i = choose|i: int| 0 <= i < b.len() && b[i] == a[0];
        let j = choose|j: int| 0 <= j < a.len() && a[j] == b[0];
        if i > 0 {
            assert(str_lt(b[0], b[i]));
            if j > 0 {
                assert(str_lt(a[0], a[j]));
                lemma_str_lt_order(a[0], b[0], a[0]);
            } else {
                lemma_str_lt_order(a[0], b[0], a[0]);
            }
        }
        assert(a[0] == b[0]);
        let a1 = a.drop_first();
        let b1 = b.drop_first();
        assert forall|x: Seq<char>| a1.to_set().contains(x) == b1.to_set().contains(x) by {
            if a1.to_set().contains(x) {
                let p = choose|p: int| 0 <= p < a1.len() && a1[p] == x;
                assert(str_lt(a[0], a[p + 1]));
                lemma_str_lt_order(a[0], x, a[0]);
                assert(b.to_set().contains(x));
                let q = choose|q: int| 0 <= q < b.len() && b[q] == x;
                assert(q != 0);
                assert(b1[q - 1] == x);
            }
            if b1.to_set().contains(x) {
                let p = choose|p: int| 0 <= p < b1.len() && b1[p] == x;
                assert(str_lt(b[0], b[p + 1]));
                lemma_str_lt_order(b[0], x, b[0]);
                assert(a.to_set().contains(x));
                let q = choose|q: int| 0 <= q < a.len() && a[q] == x;
                assert(q != 0);
                assert(a1[q - 1] == x);
            }
        }
        assert(a1.to_set() =~= b1.to_set());
        assert forall|i: int, j: int| 0 <= i < j < a1.len() implies str_lt(#[trigger] a1[i], #[trigger] a1[j]) by {
            assert(str_lt(a[i + 1], a[j + 1]));
        }
        assert forall|i: int, j: int| 0 <= i < j < b1.len() implies str_lt(#[trigger] b1[i], #[trigger] b1[j]) by {
            assert(str_lt(b[i + 1], b[j + 1]));
        }
        lemma_sorted_unique(a1, b1);
        assert(a =~= b) by {
            assert forall|i: int| 0 <= i < a.len() implies a[i] == b[i] by {
                if i > 0 {
                    assert(a1[i - 1] == b1[i - 1]);
                }
            }
        }
    }
}

/// Sorts distinct ids increasingly.
fn sort_ids(v: Vec<String>) -> (r: Vec<String>)
    requires
        strs(v@).no_duplicates(),
    ensures
        strictly_sorted(strs(r@)),
        strs(r@).to_set() == strs(v@).to_set(),
{
    let ghost s0 = strs(v@);
    let mut out: Vec<String> = Vec::new();
    let mut rest = v;
    let mut k: usize = 0;
    let ghost n = s0.len();
    let nn = rest.len();
    assert(n == nn);
    while rest.len() > 0
        invariant
            k + rest@.len() == n,
            n == s0.len(),
            s0.no_duplicates(),
            forall|i: int| 0 <= i < rest@.len() ==> rest@[i]@ == s0[k + i],
            strictly_sorted(strs(out@)),
            strs(out@).to_set() == s0.take(k as int).to_set(),
            n <= usize::MAX,
        decreases rest@.len(),
    {
        let x = rest.remove(0);
        assert(x@ == s0[k as int]);
        // Find the insertion point: the first element greater than x.
        let mut p: usize = 0;
        while p < out.len() && str_less(out[p].as_str(), x.as_str())
            invariant
                p <= out@.len(),
                forall|i: int| 0 <= i < p ==> str_lt(#[trigger] strs(out@)[i], x@),
            decreases out@.len() - p,
        {
            p = p + 1;
        }
        let ghost before = strs(out@);
        proof {
            // x is not among the sorted ids so far.
            assert(!before.to_set().contains(x@)) by {
                if before.to_set().contains(x@) {
                    assert(s0.take(k as int).to_set().contains(x@));
                    let q = choose|q: int| 0 <= q < k && s0.take(k as int)[q] == x@;
                    assert(s0[q] == s0[k as int]);
                }
            }
            if p < out@.len() {
                assert(!str_lt(before[p as int], x@));
                assert(before[p as int] != x@);
                lemma_str_lt_order(before[p as int], x@, before[p as int]);
                assert(str_lt(x@, before[p as int]));
            }
        }
        out.insert(p, x);
        proof {
            let after = strs(out@);
            assert(after =~= before.insert(p as int, x@));
            assert forall|i: int, j: int| 0 <= i < j < after.len() implies str_lt(#[trigger] after[i], #[trigger] after[j]) by {
                if j < p {
                    assert(after[i] == before[i] && after[j] == before[j]);
                } else if j == p {
                    assert(after[i] == before[i]);
                } else if i == p {
                    assert(after[j] == before[j - 1]);
                    if j - 1 > p {
                        assert(str_lt(before[p as int], before[j - 1]));
                        lemma_str_lt_order(x@, before[p as int], before[j - 1]);
                    }
                } else if i < p {
                    assert(after[i] == before[i] && after[j] == before[j - 1]);
                    if i < j - 1 {
                    } else {
                    }
                    assert(str_lt(before[i], before[j - 1])) by {
                        if i < j - 1 {
                        } else {
                            assert(i == j - 1);
                        }
                    }
                } else {
                    assert(after[i] == before[i - 1] && after[j] == before[j - 1]);
                }
            }
            assert(s0.take(k + 1) =~= s0.take(k as int).push(x@));
            assert forall|y: Seq<char>| after.to_set().contains(y) == s0.take(k + 1).to_set().contains(y) by {
                if after.to_set().contains(y) {
                    let q = choose|q: int| 0 <= q < after.len() && after[q] == y;
                    if q < p {
                        assert(before[q] == y);
                        assert(before.to_set().contains(y));
                    } else if q > p {
                        assert(before[q - 1] == y);
                        assert(before.to_set().contains(y));
                    } else {
                        assert(y == x@);
                        assert(s0.take(k + 1)[k as int] == y);
                    }
                    if y != x@ {
                        assert(s0.take(k as int).to_set().contains(y));
                        let r = choose|r: int| 0 <= r < k && s0.take(k as int)[r] == y;
                        assert(s0.take(k + 1)[r] == y);
                    }
                }
                if s0.take(k + 1).to_set().contains(y) {
                    if y == x@ {
                        assert(after[p as int] == y);
                    } else {
                        assert(s0.take(k as int).to_set().contains(y));
                        assert(before.to_set().contains(y));
                        let q = choose|q: int| 0 <= q < before.len() && before[q] == y;
                        if q < p {
                            assert(after[q] == y);
                        } else {
                            assert(after[q + 1] == y);
                        }
                    }
                }
            }
            assert(after.to_set() =~= s0.take(k + 1).to_set());
        }
        k = k + 1;
    }
    assert(s0.take(k as int) =~= s0);
    out
}


/// The depth-first search's state: a color per key (0 white, 1 gray, 2
/// black), the path of gray ids from the search's root, and the cycles
/// found so far.
pub type DfsState = (Seq<u8>, Seq<Seq<char>>, Seq<Seq<Seq<char>>>);

/// Position of `x` among the keys.
pub open spec fn key_pos(keys: Seq<Seq<char>>, x: Seq<char>) -> int {
    choose|i: int| 0 <= i < keys.len() && keys[i] == x
}

/// Position of the first occurrence of `x` in `s`.
pub open spec fn first_pos(s: Seq<Seq<char>>, x: Seq<char>) -> int {
    choose|i: int| 0 <= i < s.len() && s[i] == x && forall|j: int| 0 <= j < i ==> s[j] != x
}

/// Visits key `x`: marks it gray, follows its prerequisites `adj[x]` in
/// order, then marks it black. `fuel` bounds the depth.
pub open spec fn dfs_node(keys: Seq<Seq<char>>, adj: Seq<Seq<Seq<char>>>, x: int, st: DfsState, fuel: nat) -> DfsState
    decreases fuel, 0nat, 0nat,
{
    if fuel == 0 || !(0 <= x < keys.len()) || !(0 <= x < adj.len()) || !(0 <= x < st.0.len()) {
        st
    } else {
        let s1 = (st.0.update(x, 1u8), st.1.push(keys[x]), st.2);
        let s2 = dfs_list(keys, adj, adj[x], 0, s1, (fuel - 1) as nat);
        (s2.0.update(x, 2u8), s2.1.drop_last(), s2.2)
    }
}

/// Follows the prerequisites `ns[k..]`: a white key is visited; a gray
/// one closes a cycle, recorded as the path from its first occurrence on
/// the stack back to it; black keys and unknown ids are passed over.
pub open spec fn dfs_list(keys: Seq<Seq<char>>, adj: Seq<Seq<Seq<char>>>, ns: Seq<Seq<char>>, k: int, st: DfsState, fuel: nat) -> DfsState
    decreases fuel, 1nat, (ns.len() - k) as nat,
{
    if k < 0 || k >= ns.len() {
        st
    } else {
        let n = ns[k];
        let s2 = if keys.contains(n) {
            let j = key_pos(keys, n);
            if st.0[j] == 0u8 {
                dfs_node(keys, adj, j, st, fuel)
            } else if st.0[j] == 1u8 && st.1.contains(n) {
                (st.0, st.1, st.2.push(st.1.skip(first_pos(st.1, n)).push(n)))
            } else {
                st
            }
        } else {
            st
        };
        dfs_list(keys, adj, ns, k + 1, s2, fuel)
    }
}

/// A search keeps the number of colors and the stack it started from.
proof fn lemma_dfs_node_frame(keys: Seq<Seq<char>>, adj: Seq<Seq<Seq<char>>>, x: int, st: DfsState, fuel: nat)
    ensures
        dfs_node(keys, adj, x, st, fuel).0.len() == st.0.len(),
        dfs_node(keys, adj, x, st, fuel).1 == st.1,
    decreases fuel, 0nat, 0nat,
{
    if fuel > 0 && 0 <= x < keys.len() && 0 <= x < adj.len() && 0 <= x < st.0.len() {
        let s1 = (st.0.update(x, 1u8), st.1.push(keys[x]), st.2);
        lemma_dfs_list_frame(keys, adj, adj[x], 0, s1, (fuel - 1) as nat);
        assert(st.1.push(keys[x]).drop_last() =~= st.1);
    }
}

proof fn lemma_dfs_list_frame(keys: Seq<Seq<char>>, adj: Seq<Seq<Seq<char>>>, ns: Seq<Seq<char>>, k: int, st: DfsState, fuel: nat)
    ensures
        dfs_list(keys, adj, ns, k, st, fuel).0.len() == st.0.len(),
        dfs_list(keys, adj, ns, k, st, fuel).1 == st.1,
    decreases fuel, 1nat, (ns.len() - k) as nat,
{
    if 0 <= k < ns.len() {
        let n = ns[k];
        if keys.contains(n) {
            let j = key_pos(keys, n);
            if st.0[j] == 0u8 {
                lemma_dfs_node_frame(keys, adj, j, st, fuel);
                let s2 = dfs_node(keys, adj, j, st, fuel);
                lemma_dfs_list_frame(keys, adj, ns, k + 1, s2, fuel);
            } else if st.0[j] == 1u8 && st.1.contains(n) {
                let s2 = (st.0, st.1, st.2.push(st.1.skip(first_pos(st.1, n)).push(n)));
                lemma_dfs_list_frame(keys, adj, ns, k + 1, s2, fuel);
            } else {
                lemma_dfs_list_frame(keys, adj, ns, k + 1, st, fuel);
            }
        } else {
            lemma_dfs_list_frame(keys, adj, ns, k + 1, st, fuel);
        }
    }
}

/// The views of a list of cycles.
pub open spec fn cycle_views(c: Seq<Vec<String>>) -> Seq<Seq<Seq<char>>> {
    c.map_values(|v: Vec<String>| strs(v@))
}

/// The views of the prerequisite lists.
pub open spec fn adj_views(a: Seq<Vec<String>>) -> Seq<Seq<Seq<char>>> {
    a.map_values(|v: Vec<String>| strs(v@))
}

/// Copies of `v[from..]`, then `last`.
fn tail_then(v: &Vec<String>, from: usize, last: &str) -> (r: Vec<String>)
    requires
        from <= v@.len(),
    ensures
        strs(r@) == strs(v@).skip(from as int).push(last@),
{
    let mut r: Vec<String> = Vec::new();
    let mut i: usize = from;
    while i < v.len()
        invariant
            from <= i <= v@.len(),
            strs(r@) == strs(v@).subrange(from as int, i as int),
        decreases v@.len() - i,
    {
        let ghost before = strs(r@);
        let x = copy(&v[i]);
        r.push(x);
        assert(strs(r@) =~= before.push(x@));
        assert(strs(r@) =~= strs(v@).subrange(from as int, i + 1));
        i = i + 1;
    }
    let ghost before = strs(r@);
    let x = to_owned(last);
    r.push(x);
    assert(strs(r@) =~= before.push(x@));
    assert(strs(v@).subrange(from as int, v@.len() as int) =~= strs(v@).skip(from as int));
    r
}

/// Depth-first search from key `x` (see `dfs_node`).
fn cycle_dfs(
    keys: &Vec<String>,
    adj: &Vec<Vec<String>>,
    x: usize,
    color: &mut Vec<u8>,
    stack: &mut Vec<String>,
    cycles: &mut Vec<Vec<String>>,
    fuel: usize,
)
    requires
        strs(keys@).no_duplicates(),
        adj@.len() == keys@.len(),
        old(color)@.len() == keys@.len(),
    ensures
        (final(color)@, strs(final(stack)@), cycle_views(final(cycles)@)) == dfs_node(
            strs(keys@),
            adj_views(adj@),
            x as int,
            (old(color)@, strs(old(stack)@), cycle_views(old(cycles)@)),
            fuel as nat,
        ),
        final(color)@.len() == keys@.len(),
    decreases fuel,
{
    let ghost kv = strs(keys@);
    let ghost av = adj_views(adj@);
    let ghost st0 = (color@, strs(stack@), cycle_views(cycles@));
    if fuel == 0 || x >= keys.len() {
        return;
    }
    color.set(x, 1u8);
    let ghost sb = strs(stack@);
    stack.push(copy(&keys[x]));
    assert(strs(stack@) =~= sb.push(kv[x as int]));
    let ghost s1 = (color@, strs(stack@), cycle_views(cycles@));
    assert(s1 == (st0.0.update(x as int, 1u8), st0.1.push(kv[x as int]), st0.2));
    let ns = &adj[x];
    let ghost nv = av[x as int];
    assert(nv == strs(ns@));
    let ghost f1 = (fuel - 1) as nat;
    let ghost whole = dfs_list(kv, av, nv, 0, s1, f1);
    let mut k: usize = 0;
    while k < ns.len()
        invariant
            kv == strs(keys@),
            av == adj_views(adj@),
            kv.no_duplicates(),
            adj@.len() == keys@.len(),
            color@.len() == keys@.len(),
            nv == strs(ns@),
            f1 + 1 == fuel,
            k <= ns@.len(),
            whole == dfs_list(kv, av, nv, k as int, (color@, strs(stack@), cycle_views(cycles@)), f1),
        decreases ns@.len() - k,
    {
        let n = ns[k].as_str();
        assert(nv[k as int] == n@);
        let ghost cur = (color@, strs(stack@), cycle_views(cycles@));
        match vec_position(keys, n) {
            Some(j) => {
                assert(kv[j as int] == n@);
                assert(kv.contains(n@));
                assert(key_pos(kv, n@) == j as int) by {
                    let q = key_pos(kv, n@);
                    assert(0 <= q < kv.len() && kv[q] == n@);
                }
                if color[j] == 0u8 {
                    cycle_dfs(keys, adj, j, color, stack, cycles, fuel - 1);
                } else if color[j] == 1u8 {
                    match vec_position(stack, n) {
                        Some(start) => {
                            assert(strs(stack@)[start as int] == n@);
                            assert(strs(stack@).contains(n@));
                            assert(first_pos(strs(stack@), n@) == start as int) by {
                                let q = first_pos(strs(stack@), n@);
                                assert(0 <= q < strs(stack@).len() && strs(stack@)[q] == n@ && forall|i: int| 0 <= i < q ==> strs(stack@)[i] != n@);
                                if q < start {
                                    assert(stack@[q]@ == n@);
                                } else if start < q {
                                }
                            }
                            let c = tail_then(stack, start, n);
                            let ghost cb = cycle_views(cycles@);
                            cycles.push(c);
                            assert(cycle_views(cycles@) =~= cb.push(strs(c@)));
                        },
                        None => {
                            assert(!strs(stack@).contains(n@));
                        },
                    }
                }
            },
            None => {
                assert(!kv.contains(n@));
            },
        }
        k = k + 1;
    }
    let ghost s2 = (color@, strs(stack@), cycle_views(cycles@));
    assert(s2 == whole);
    proof {
        lemma_dfs_list_frame(kv, av, nv, 0, s1, f1);
    }
    color.set(x, 2u8);
    let ghost sp = strs(stack@);
    stack.pop();
    assert(strs(stack@) =~= sp.drop_last());
}


/// The ids of the steps.
pub open spec fn step_ids(all: Seq<Step>) -> Set<Seq<char>> {
    Set::new(|x: Seq<char>| known(all, x))
}

/// The prerequisites of every step with id `key`, in order.
pub open spec fn adj_of(ss: Seq<Step>, key: Seq<char>) -> Seq<Seq<char>>
    decreases ss.len(),
{
    if ss.len() == 0 {
        Seq::empty()
    } else {
        adj_of(ss.drop_last(), key) + if ss.last().0.id@ == key {
            ss.last().0.prereqs()
        } else {
            Seq::empty()
        }
    }
}

/// Searches from each still-white key `keys[i..]` in order, each search
/// with an empty stack.
pub open spec fn detect(keys: Seq<Seq<char>>, adj: Seq<Seq<Seq<char>>>, i: int, st: DfsState) -> DfsState
    decreases keys.len() - i,
{
    if i < 0 || i >= keys.len() {
        st
    } else {
        let s2 = if st.0[i] == 0u8 {
            dfs_node(keys, adj, i, (st.0, Seq::empty(), st.2), keys.len() as nat)
        } else {
            st
        };
        detect(keys, adj, i + 1, s2)
    }
}

/// The prerequisite cycles the search finds, over the ids in increasing
/// order.
pub open spec fn found_cycles(all: Seq<Step>) -> Seq<Seq<Seq<char>>> {
    let keys = sorted_keys(step_ids(all));
    let adj = Seq::new(keys.len(), |i: int| adj_of(all, keys[i]));
    detect(keys, adj, 0, (Seq::new(keys.len(), |i: int| 0u8), Seq::empty(), Seq::empty())).2
}

/// The ids joined by arrows.
pub open spec fn join_arrow(c: Seq<Seq<char>>) -> Seq<char>
    decreases c.len(),
{
    if c.len() == 0 {
        Seq::empty()
    } else if c.len() == 1 {
        c[0]
    } else {
        join_arrow(c.drop_last()) + " -> "@ + c.last()
    }
}

/// One finding per cycle, about its first id.
pub open spec fn cycle_issues(cs: Seq<Seq<Seq<char>>>) -> Seq<IssueV> {
    cs.map_values(|c: Seq<Seq<char>>| (None::<Seq<char>>, Some(c[0]), joined(seq!["prerequisite cycle: "@, join_arrow(c)])))
}

fn join_arrow_exec(c: &Vec<String>) -> (r: String)
    ensures
        r@ == join_arrow(strs(c@)),
{
    let mut r = String::new();
    let mut i: usize = 0;
    proof {
        reveal_strlit(" -> ");
    }
    while i < c.len()
        invariant
            i <= c@.len(),
            r@ == join_arrow(strs(c@).take(i as int)),
        decreases c@.len() - i,
    {
        let ghost before = r@;
        assert(strs(c@).take(i + 1).drop_last() =~= strs(c@).take(i as int));
        if i > 0 {
            r.append(" -> ");
        }
        r.append(c[i].as_str());
        proof {
            if i == 0 {
                assert(strs(c@).take(0) =~= Seq::<Seq<char>>::empty());
                assert(r@ =~= strs(c@).take(1)[0]);
            }
        }
        i = i + 1;
    }
    assert(strs(c@).take(c@.len() as int) =~= strs(c@));
    r
}

/// Distinct ids of the visits, in increasing order.
fn visit_keys(visits: &Vec<Visit>, Ghost(all): Ghost<Seq<Step>>) -> (keys: Vec<String>)
    requires
        visits@.len() == all.len(),
        forall|k: int| 0 <= k < visits@.len() ==> #[trigger] records(visits@[k], all[k]),
    ensures
        strs(keys@) == sorted_keys(step_ids(all)),
        strs(keys@).no_duplicates(),
{
    let mut ids = IdSet::new();
    let mut k: usize = 0;
    while k < visits.len()
        invariant
            k <= visits@.len(),
            visits@.len() == all.len(),
            forall|k: int| 0 <= k < visits@.len() ==> #[trigger] records(visits@[k], all[k]),
            ids@ == Set::new(|x: Seq<char>| exists|j: int| 0 <= j < k && all[j].0.id@ == x),
        decreases visits@.len() - k,
    {
        assert(records(visits@[k as int], all[k as int]));
        ids.insert(visits[k].id.as_str());
        let ghost kk = k as int;
        assert(ids@ =~= Set::new(|x: Seq<char>| exists|j: int| 0 <= j < kk + 1 && all[j].0.id@ == x)) by {
            assert forall|x: Seq<char>| ids@.contains(x) implies exists|j: int| 0 <= j < kk + 1 && all[j].0.id@ == x by {
                if x == all[kk].0.id@ {
                } else {
                }
            }
        }
        k = k + 1;
    }
    assert(ids@ =~= step_ids(all));
    let v = ids.to_vec();
    let keys = sort_ids(v);
    proof {
        assert(strs(keys@).to_set() == step_ids(all));
        lemma_sorted_unique(strs(keys@), sorted_keys(step_ids(all)));
        assert(strs(keys@).no_duplicates()) by {
            assert forall|i: int, j: int| 0 <= i < strs(keys@).len() && 0 <= j < strs(keys@).len() && i != j implies strs(keys@)[i] != strs(keys@)[j] by {
                if i < j {
                    lemma_str_lt_order(strs(keys@)[i], strs(keys@)[j], strs(keys@)[i]);
                } else {
                    lemma_str_lt_order(strs(keys@)[j], strs(keys@)[i], strs(keys@)[j]);
                }
            }
        }
    }
    keys
}


/// Every cycle a search records is non-empty.
proof fn lemma_dfs_node_cycles(keys: Seq<Seq<char>>, adj: Seq<Seq<Seq<char>>>, x: int, st: DfsState, fuel: nat)
    requires
        forall|i: int| 0 <= i < st.2.len() ==> #[trigger] st.2[i].len() > 0,
    ensures
        forall|i: int| 0 <= i < dfs_node(keys, adj, x, st, fuel).2.len() ==> #[trigger] dfs_node(keys, adj, x, st, fuel).2[i].len() > 0,
    decreases fuel, 0nat, 0nat,
{
    if fuel > 0 && 0 <= x < keys.len() && 0 <= x < adj.len() && 0 <= x < st.0.len() {
        let s1 = (st.0.update(x, 1u8), st.1.push(keys[x]), st.2);
        lemma_dfs_list_cycles(keys, adj, adj[x], 0, s1, (fuel - 1) as nat);
        assert(dfs_node(keys, adj, x, st, fuel).2 == dfs_list(keys, adj, adj[x], 0, s1, (fuel - 1) as nat).2);
    }
}

proof fn lemma_dfs_list_cycles(keys: Seq<Seq<char>>, adj: Seq<Seq<Seq<char>>>, ns: Seq<Seq<char>>, k: int, st: DfsState, fuel: nat)
    requires
        forall|i: int| 0 <= i < st.2.len() ==> #[trigger] st.2[i].len() > 0,
    ensures
        forall|i: int| 0 <= i < dfs_list(keys, adj, ns, k, st, fuel).2.len() ==> #[trigger] dfs_list(keys, adj, ns, k, st, fuel).2[i].len() > 0,
    decreases fuel, 1nat, (ns.len() - k) as nat,
{
    if 0 <= k < ns.len() {
        let n = ns[k];
        if keys.contains(n) {
            let j = key_pos(keys, n);
            if st.0[j] == 0u8 {
                lemma_dfs_node_cycles(keys, adj, j, st, fuel);
                lemma_dfs_list_cycles(keys, adj, ns, k + 1, dfs_node(keys, adj, j, st, fuel), fuel);
                assert(dfs_list(keys, adj, ns, k, st, fuel) == dfs_list(keys, adj, ns, k + 1, dfs_node(keys, adj, j, st, fuel), fuel));
            } else if st.0[j] == 1u8 && st.1.contains(n) {
                let c = st.1.skip(first_pos(st.1, n)).push(n);
                let s2 = (st.0, st.1, st.2.push(c));
                assert forall|i: int| 0 <= i < s2.2.len() implies #[trigger] s2.2[i].len() > 0 by {
                    if i < st.2.len() {
                        assert(s2.2[i] == st.2[i]);
                    }
                }
                lemma_dfs_list_cycles(keys, adj, ns, k + 1, s2, fuel);
                assert(dfs_list(keys, adj, ns, k, st, fuel) == dfs_list(keys, adj, ns, k + 1, s2, fuel));
            } else {
                lemma_dfs_list_cycles(keys, adj, ns, k + 1, st, fuel);
                assert(dfs_list(keys, adj, ns, k, st, fuel) == dfs_list(keys, adj, ns, k + 1, st, fuel));
            }
        } else {
            lemma_dfs_list_cycles(keys, adj, ns, k + 1, st, fuel);
            assert(dfs_list(keys, adj, ns, k, st, fuel) == dfs_list(keys, adj, ns, k + 1, st, fuel));
        }
    }
}

/// The prerequisites of each key, gathered over the visits with that id.
fn build_adj(keys: &Vec<String>, visits: &Vec<Visit>, Ghost(all): Ghost<Seq<Step>>) -> (adj: Vec<Vec<String>>)
    requires
        visits@.len() == all.len(),
        forall|k: int| 0 <= k < visits@.len() ==> #[trigger] records(visits@[k], all[k]),
    ensures
        adj@.len() == keys@.len(),
        forall|i: int| 0 <= i < keys@.len() ==> #[trigger] strs(adj@[i]@) == adj_of(all, strs(keys@)[i]),
{
    let mut adj: Vec<Vec<String>> = Vec::new();
    let mut i: usize = 0;
    while i < keys.len()
        invariant
            i <= keys@.len(),
            adj@.len() == i,
            visits@.len() == all.len(),
            forall|k: int| 0 <= k < visits@.len() ==> #[trigger] records(visits@[k], all[k]),
            forall|x: int| 0 <= x < i ==> #[trigger] strs(adj@[x]@) == adj_of(all, strs(keys@)[x]),
        decreases keys@.len() - i,
    {
        let key = keys[i].as_str();
        assert(strs(keys@)[i as int] == key@);
        let mut acc: Vec<String> = Vec::new();
        let mut k: usize = 0;
        assert(adj_of(all.take(0), key@) =~= Seq::<Seq<char>>::empty());
        while k < visits.len()
            invariant
                k <= visits@.len(),
                visits@.len() == all.len(),
                forall|k: int| 0 <= k < visits@.len() ==> #[trigger] records(visits@[k], all[k]),
                strs(acc@) == adj_of(all.take(k as int), key@),
            decreases visits@.len() - k,
        {
            assert(records(visits@[k as int], all[k as int]));
            assert(all.take(k + 1).drop_last() =~= all.take(k as int));
            assert(all.take(k + 1).last() == all[k as int]);
            if crate::ids::str_eq(visits[k].id.as_str(), key) {
                let ghost before = strs(acc@);
                let mut more = copy_all(&visits[k].prerequisites);
                let ghost m = strs(more@);
                acc.append(&mut more);
                assert(strs(acc@) =~= before + m);
            } else {
                assert(strs(acc@) =~= adj_of(all.take(k as int), key@) + Seq::<Seq<char>>::empty());
            }
            k = k + 1;
        }
        assert(all.take(k as int) =~= all);
        adj.push(acc);
        i = i + 1;
    }
    adj
}

/// The cycle phase: searches the prerequisite graph and reports each cycle
/// found.
fn check_cycles(visits: &Vec<Visit>, issues: &mut Vec<CheckIssue>, Ghost(all): Ghost<Seq<Step>>)
    requires
        visits@.len() == all.len(),
        forall|k: int| 0 <= k < visits@.len() ==> #[trigger] records(visits@[k], all[k]),
    ensures
        issue_views(final(issues)@) == issue_views(old(issues)@) + cycle_issues(found_cycles(all)),
{
    let keys = visit_keys(visits, Ghost(all));
    let adj = build_adj(&keys, visits, Ghost(all));
    let ghost kv = strs(keys@);
    let ghost av = adj_views(adj@);
    assert(av =~= Seq::new(kv.len(), |i: int| adj_of(all, kv[i])));
    let n = keys.len();
    let mut color: Vec<u8> = Vec::new();
    let mut j: usize = 0;
    while j < n
        invariant
            j <= n,
            color@.len() == j,
            forall|x: int| 0 <= x < j ==> color@[x] == 0u8,
        decreases n - j,
    {
        color.push(0u8);
        j = j + 1;
    }
    let ghost init: DfsState = (color@, Seq::<Seq<char>>::empty(), Seq::<Seq<Seq<char>>>::empty());
    assert(init == (Seq::new(kv.len(), |i: int| 0u8), Seq::<Seq<char>>::empty(), Seq::<Seq<Seq<char>>>::empty()));
    let mut cycles: Vec<Vec<String>> = Vec::new();
    assert(cycle_views(cycles@) =~= Seq::<Seq<Seq<char>>>::empty());
    let mut i: usize = 0;
    while i < n
        invariant
            i <= n,
            n == keys@.len(),
            kv == strs(keys@),
            av == adj_views(adj@),
            kv.no_duplicates(),
            adj@.len() == keys@.len(),
            color@.len() == n,
            detect(kv, av, 0, init) == detect(kv, av, i as int, (color@, Seq::<Seq<char>>::empty(), cycle_views(cycles@))),
            forall|x: int| 0 <= x < cycle_views(cycles@).len() ==> #[trigger] cycle_views(cycles@)[x].len() > 0,
        decreases n - i,
    {
        if color[i] == 0u8 {
            let mut stack: Vec<String> = Vec::new();
            assert(strs(stack@) =~= Seq::<Seq<char>>::empty());
            let ghost before = (color@, Seq::<Seq<char>>::empty(), cycle_views(cycles@));
            cycle_dfs(&keys, &adj, i, &mut color, &mut stack, &mut cycles, n);
            proof {
                lemma_dfs_node_frame(kv, av, i as int, before, n as nat);
                lemma_dfs_node_cycles(kv, av, i as int, before, n as nat);
            }
        }
        i = i + 1;
    }
    let ghost found = cycle_views(cycles@);
    assert(found == found_cycles(all));
    let ghost start = issue_views(issues@);
    let mut c: usize = 0;
    while c < cycles.len()
        invariant
            c <= cycles@.len(),
            found == cycle_views(cycles@),
            forall|x: int| 0 <= x < found.len() ==> #[trigger] found[x].len() > 0,
            issue_views(issues@) == start + cycle_issues(found.take(c as int)),
        decreases cycles@.len() - c,
    {
        let cyc = &cycles[c];
        assert(found[c as int] == strs(cyc@));
        assert(found[c as int].len() > 0);
        let text = join_arrow_exec(cyc);
        let parts: [&str; 2] = ["prerequisite cycle: ", text.as_str()];
        let msg = concat(&parts);
        proof {
            assert(views(parts@) =~= seq!["prerequisite cycle: "@, text@]);
        }
        push_issue(issues, None, Some(copy(&cyc[0])), msg);
        proof {
            assert(found.take(c + 1) =~= found.take(c as int).push(found[c as int]));
            assert(cycle_issues(found.take(c + 1)) =~= cycle_issues(found.take(c as int)).push((None::<Seq<char>>, Some(found[c as int][0]), joined(seq!["prerequisite cycle: "@, join_arrow(found[c as int])]))));
        }
        c = c + 1;
    }
    assert(found.take(cycles@.len() as int) =~= found);
}


// ── The whole check ─────────────────────────────────────────────────

/// `r` is the report of the check over the manifest's areas `entries`
/// and their area files `files` (each loaded, or the message of its load
/// error), whose loaded concepts are `cs`: the counts over the walk of
/// all areas, and the findings of the walk (area by area), of the
/// prerequisites, of the cycle search and of the orphan search, in that
/// order.
pub open spec fn report_of(r: CheckReport, entries: Seq<ManifestArea>, files: Seq<Result<AreaFile, String>>, cs: Seq<Seq<Concept>>) -> bool {
    let all = steps_upto(files, cs, files.len() as int);
    &&& r.areas == entries.len()
    &&& r.clusters == count_clusters(all)
    &&& r.atoms == count_atoms(all)
    &&& r.max_depth == max_depth(all)
    &&& r.prereq_edges == step_edges(all).len()
    &&& issue_views(r.issues@) == walk_issues(entries, files, cs, files.len() as int) + prereq_issues(entries, all, all)
        + cycle_issues(found_cycles(all)) + orphan_issues(entries, all, all)
}

/// `mt graph check` over loaded area files: `files[i]` is the area file
/// of `entries[i]`, or the message of the error that kept it from
/// loading.
pub fn check_curriculum(entries: &Vec<ManifestArea>, files: Vec<Result<AreaFile, String>>) -> (r: CheckReport)
    requires
        entries@.len() == files@.len(),
    ensures
        exists|cs: Seq<Seq<Concept>>| areas_concepts(cs, files@) && report_of(r, entries@, files@, cs),
{
    let ghost files0 = files@;
    let (mut issues, visits, Ghost(cs)) = walk_areas(entries, files);
    let ghost all = steps_upto(files0, cs, files0.len() as int);
    let ghost walked = issue_views(issues@);
    proof {
        lemma_steps_upto_area(files0, cs, files0.len() as int);
    }
    let (clusters, atoms, max_depth) = count_visits(&visits, Ghost(all));
    let edges = check_prereqs(entries, &visits, &mut issues, Ghost(all));
    let ghost after_prereqs = issue_views(issues@);
    check_cycles(&visits, &mut issues, Ghost(all));
    let ghost after_cycles = issue_views(issues@);
    check_orphans(entries, &visits, &edges, &mut issues, Ghost(all));
    let r = CheckReport { areas: entries.len(), clusters, atoms, max_depth, prereq_edges: edges.len(), issues };
    assert(report_of(r, entries@, files0, cs));
    r
}

/// The finding for prerequisite `p` of step `s` when it names no concept.
proof fn lemma_unknown_in(entries: Seq<ManifestArea>, all: Seq<Step>, s: Step, ps: Seq<Seq<char>>, j: int)
    requires
        0 <= j < ps.len(),
        !known(all, ps[j]),
    ensures
        unknown_issues(entries, all, s, ps).contains((area_of(entries, all, s.0.id@), Some(s.0.id@), msg_unknown_prereq(ps[j]))),
    decreases ps.len(),
{
    let x = (area_of(entries, all, s.0.id@), Some(s.0.id@), msg_unknown_prereq(ps[j]));
    if j == ps.len() - 1 {
        let u = unknown_issues(entries, all, s, ps.drop_last()).push(x);
        assert(u[u.len() - 1] == x);
    } else {
        assert(ps.drop_last()[j] == ps[j]);
        lemma_unknown_in(entries, all, s, ps.drop_last(), j);
        let rest = unknown_issues(entries, all, s, ps.drop_last());
        let i = choose|i: int| 0 <= i < rest.len() && rest[i] == x;
        if !known(all, ps.last()) {
            assert(rest.push((area_of(entries, all, s.0.id@), Some(s.0.id@), msg_unknown_prereq(ps.last())))[i] == x);
        }
    }
}

/// The finding for prerequisite `j` of step `ss[k]` is among the findings
/// about the prerequisites of `ss`.
proof fn lemma_prereq_in(entries: Seq<ManifestArea>, all: Seq<Step>, ss: Seq<Step>, k: int, j: int)
    requires
        0 <= k < ss.len(),
        0 <= j < ss[k].0.prereqs().len(),
        !known(all, ss[k].0.prereqs()[j]),
    ensures
        prereq_issues(entries, all, ss).contains(
            (area_of(entries, all, ss[k].0.id@), Some(ss[k].0.id@), msg_unknown_prereq(ss[k].0.prereqs()[j])),
        ),
    decreases ss.len(),
{
    let x = (area_of(entries, all, ss[k].0.id@), Some(ss[k].0.id@), msg_unknown_prereq(ss[k].0.prereqs()[j]));
    let front = prereq_issues(entries, all, ss.drop_last());
    let back = unknown_issues(entries, all, ss.last(), ss.last().0.prereqs());
    if k == ss.len() - 1 {
        lemma_unknown_in(entries, all, ss.last(), ss.last().0.prereqs(), j);
        let i = choose|i: int| 0 <= i < back.len() && back[i] == x;
        assert((front + back)[front.len() + i] == x);
    } else {
        assert(ss.drop_last()[k] == ss[k]);
        lemma_prereq_in(entries, all, ss.drop_last(), k, j);
        let i = choose|i: int| 0 <= i < front.len() && front[i] == x;
        assert((front + back)[i] == x);
    }
}

proof fn lemma_unknown_sound(entries: Seq<ManifestArea>, all: Seq<Step>, s: Step, ps: Seq<Seq<char>>, i: int)
    requires
        0 <= i < unknown_issues(entries, all, s, ps).len(),
    ensures
        exists|j: int|
            0 <= j < ps.len() && !known(all, ps[j]) && #[trigger] unknown_issues(entries, all, s, ps)[i] == (
                area_of(entries, all, s.0.id@),
                Some(s.0.id@),
                msg_unknown_prereq(ps[j]),
            ),
    decreases ps.len(),
{
    let init = ps.drop_last();
    let rest = unknown_issues(entries, all, s, init);
    if i < rest.len() {
        lemma_unknown_sound(entries, all, s, init, i);
        let j = choose|j: int| 0 <= j < init.len() && !known(all, init[j]) && rest[i] == (
            area_of(entries, all, s.0.id@), Some(s.0.id@), msg_unknown_prereq(init[j]));
        assert(ps[j] == init[j]);
        if !known(all, ps.last()) {
            assert(rest.push((area_of(entries, all, s.0.id@), Some(s.0.id@), msg_unknown_prereq(ps.last())))[i] == rest[i]);
        }
    } else {
        assert(ps[ps.len() - 1] == ps.last());
    }
}

/// Every finding of the prerequisite phase is about a prerequisite that
/// names no concept of the walk: it names a walked concept, in its area,
/// and one of that concept's prerequisites that no walked concept has.
pub proof fn law_prereq_findings_are_unknown(entries: Seq<ManifestArea>, all: Seq<Step>, ss: Seq<Step>, i: int)
    requires
        0 <= i < prereq_issues(entries, all, ss).len(),
    ensures
        exists|k: int, j: int|
            0 <= k < ss.len() && 0 <= j < ss[k].0.prereqs().len() && (forall|m: int|
                0 <= m < all.len() ==> #[trigger] all[m].0.id@ != ss[k].0.prereqs()[j])
                && #[trigger] prereq_issues(entries, all, ss)[i] == (
                area_of(entries, all, ss[k].0.id@),
                Some(ss[k].0.id@),
                msg_unknown_prereq(ss[k].0.prereqs()[j]),
            ),
    decreases ss.len(),
{
    let init = ss.drop_last();
    let front = prereq_issues(entries, all, init);
    let back = unknown_issues(entries, all, ss.last(), ss.last().0.prereqs());
    assert(prereq_issues(entries, all, ss) == front + back);
    if i < front.len() {
        law_prereq_findings_are_unknown(entries, all, init, i);
        let (k, j) = choose|k: int, j: int|
            0 <= k < init.len() && 0 <= j < init[k].0.prereqs().len() && (forall|m: int|
                0 <= m < all.len() ==> #[trigger] all[m].0.id@ != init[k].0.prereqs()[j]) && front[i] == (
                area_of(entries, all, init[k].0.id@), Some(init[k].0.id@), msg_unknown_prereq(init[k].0.prereqs()[j]));
        assert(ss[k] == init[k]);
        assert((front + back)[i] == front[i]);
    } else {
        lemma_unknown_sound(entries, all, ss.last(), ss.last().0.prereqs(), i - front.len());
        let j = choose|j: int| 0 <= j < ss.last().0.prereqs().len() && !known(all, ss.last().0.prereqs()[j])
            && back[i - front.len()] == (area_of(entries, all, ss.last().0.id@), Some(ss.last().0.id@), msg_unknown_prereq(ss.last().0.prereqs()[j]));
        let k = ss.len() - 1;
        assert(ss[k] == ss.last());
        assert((front + back)[i] == back[i - front.len()]);
        assert forall|m: int| 0 <= m < all.len() implies #[trigger] all[m].0.id@ != ss[k].0.prereqs()[j] by {
            if all[m].0.id@ == ss[k].0.prereqs()[j] {
                assert(known(all, ss.last().0.prereqs()[j]));
            }
        }
    }
}

/// A prerequisite that names no concept of the curriculum is reported:
/// when no walked concept has id `p`, a prerequisite of walked concept
/// `k`, the check's findings hold, for that concept in its area,
/// "prerequisite 'p' references unknown id", so the check does not pass.
pub proof fn law_unknown_prerequisite_reported(
    r: CheckReport,
    entries: Seq<ManifestArea>,
    files: Seq<Result<AreaFile, String>>,
    cs: Seq<Seq<Concept>>,
    k: int,
    j: int,
)
    requires
        report_of(r, entries, files, cs),
        0 <= k < steps_upto(files, cs, files.len() as int).len(),
        0 <= j < steps_upto(files, cs, files.len() as int)[k].0.prereqs().len(),
        forall|m: int|
            0 <= m < steps_upto(files, cs, files.len() as int).len() ==> #[trigger] steps_upto(files, cs, files.len() as int)[m].0.id@
                != steps_upto(files, cs, files.len() as int)[k].0.prereqs()[j],
    ensures
        ({
            let all = steps_upto(files, cs, files.len() as int);
            let id = all[k].0.id@;
            issue_views(r.issues@).contains((area_of(entries, all, id), Some(id), msg_unknown_prereq(all[k].0.prereqs()[j])))
        }),
        r.issues@.len() > 0,
{
    let all = steps_upto(files, cs, files.len() as int);
    let p = all[k].0.prereqs()[j];
    if known(all, p) {
        let m = choose|m: int| 0 <= m < all.len() && all[m].0.id@ == p;
        assert(all[m].0.id@ != p);
    }
    lemma_prereq_in(entries, all, all, k, j);
    let x = (area_of(entries, all, all[k].0.id@), Some(all[k].0.id@), msg_unknown_prereq(p));
    let w = walk_issues(entries, files, cs, files.len() as int);
    let pi = prereq_issues(entries, all, all);
    let ci = cycle_issues(found_cycles(all));
    let oi = orphan_issues(entries, all, all);
    let i = choose|i: int| 0 <= i < pi.len() && pi[i] == x;
    assert(((w + pi) + ci + oi)[w.len() + i] == x);
    assert(issue_views(r.issues@) == w + pi + ci + oi);
    assert(issue_views(r.issues@)[w.len() + i] == x);
}

// ── Printed report ──────────────────────────────────────────────────

/// Where an issue is: `area/node`, the area or the node alone, or
/// `(graph)`.
pub open spec fn issue_place(i: IssueV) -> Seq<char> {
    match (i.0, i.1) {
        (Some(a), Some(n)) => joined(seq![a, "/"@, n]),
        (Some(a), None) => a,
        (None, Some(n)) => n,
        (None, None) => "(graph)"@,
    }
}

/// The issue lines of the printed report.
pub open spec fn issue_lines(is: Seq<IssueV>) -> Seq<Seq<char>> {
    is.map_values(|i: IssueV| joined(seq!["  "@, issue_place(i), ": "@, i.2]))
}

/// The lines `mt graph check` prints for a report: the statistics, then
/// either the pass line or the issues and the failure line.
pub open spec fn report_text(r: CheckReport) -> Seq<Seq<char>> {
    seq![
        ""@,
        "Statistics"@,
        joined(seq!["  areas:        "@, decimal(r.areas as nat)]),
        joined(seq!["  clusters:     "@, decimal(r.clusters as nat)]),
        joined(seq!["  atoms:        "@, decimal(r.atoms as nat)]),
        joined(seq!["  total nodes:  "@, decimal((r.clusters + r.atoms) as nat)]),
        joined(seq!["  max depth:    "@, decimal(r.max_depth as nat)]),
        joined(seq!["  prereq edges: "@, decimal(r.prereq_edges as nat)]),
    ] + if r.issues@.len() == 0 {
        seq![""@, "graph check passed."@]
    } else {
        seq![""@, joined(seq!["Issues ("@, decimal(r.issues@.len() as nat), "):"@])] + issue_lines(issue_views(r.issues@)) + seq![
            ""@,
            "graph check FAILED."@,
        ]
    }
}

fn stat_line(label: &str, n: u64) -> (r: String)
    ensures
        r@ == joined(seq![label@, decimal(n as nat)]),
{
    let d = decimal_string(n);
    let parts: [&str; 2] = [label, d.as_str()];
    let r = concat(&parts);
    assert(views(parts@) =~= seq![label@, d@]);
    r
}

impl CheckReport {
    /// The lines of the printed report (see `report_text`).
    pub fn lines(&self) -> (r: Vec<String>)
        requires
            self.clusters + self.atoms <= u64::MAX,
        ensures
            strs(r@) == report_text(*self),
    {
        let mut out: Vec<String> = Vec::new();
        out.push(to_owned(""));
        out.push(to_owned("Statistics"));
        out.push(stat_line("  areas:        ", self.areas as u64));
        out.push(stat_line("  clusters:     ", self.clusters as u64));
        out.push(stat_line("  atoms:        ", self.atoms as u64));
        out.push(stat_line("  total nodes:  ", self.clusters as u64 + self.atoms as u64));
        out.push(stat_line("  max depth:    ", self.max_depth as u64));
        out.push(stat_line("  prereq edges: ", self.prereq_edges as u64));
        let ghost head = strs(out@);
        if self.issues.len() == 0 {
            out.push(to_owned(""));
            out.push(to_owned("graph check passed."));
            assert(strs(out@) =~= report_text(*self));
            return out;
        }
        out.push(to_owned(""));
        let n = decimal_string(self.issues.len() as u64);
        let parts: [&str; 3] = ["Issues (", n.as_str(), "):"];
        out.push(concat(&parts));
        assert(views(parts@) =~= seq!["Issues ("@, n@, "):"@]);
        let ghost mid = strs(out@);
        let ghost iv = issue_views(self.issues@);
        let ghost stats = report_text(*self).take(8);
        assert(head =~= stats);
        let ghost issues_head = seq![""@, joined(seq!["Issues ("@, decimal(self.issues@.len() as nat), "):"@])];
        assert(mid =~= stats + issues_head);
        let mut k: usize = 0;
        while k < self.issues.len()
            invariant
                k <= self.issues@.len(),
                iv == issue_views(self.issues@),
                strs(out@) == mid + issue_lines(iv.take(k as int)),
            decreases self.issues@.len() - k,
        {
            let i = &self.issues[k];
            let place = match (&i.area, &i.node) {
                (Some(a), Some(nd)) => {
                    let p: [&str; 3] = [a.as_str(), "/", nd.as_str()];
                    let r = concat(&p);
                    assert(views(p@) =~= seq![a@, "/"@, nd@]);
                    r
                },
                (Some(a), None) => copy(a),
                (None, Some(nd)) => copy(nd),
                (None, None) => to_owned("(graph)"),
            };
            let lp: [&str; 4] = ["  ", place.as_str(), ": ", i.message.as_str()];
            let line = concat(&lp);
            assert(views(lp@) =~= seq!["  "@, place@, ": "@, i.message@]);
            let ghost before = strs(out@);
            out.push(line);
            proof {
                assert(iv[k as int] == i@);
                assert(place@ == issue_place(iv[k as int]));
                assert(iv.take(k + 1) =~= iv.take(k as int).push(iv[k as int]));
                assert(issue_lines(iv.take(k + 1)) =~= issue_lines(iv.take(k as int)).push(line@));
                assert(strs(out@) =~= before.push(line@));
            }
            k = k + 1;
        }
        assert(iv.take(self.issues@.len() as int) =~= iv);
        out.push(to_owned(""));
        out.push(to_owned("graph check FAILED."));
        let ghost tail = seq![""@, "graph check FAILED."@];
        assert(strs(out@) =~= stats + issues_head + issue_lines(iv) + tail);
        assert(report_text(*self) =~= stats + (issues_head + issue_lines(iv) + tail));
        assert(strs(out@) =~= report_text(*self));
        out
    }
}

} // verus!
