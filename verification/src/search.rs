//! The search for the first candidate that exists and matches the type filter,
//! as a state machine. The search takes the candidates one at a time, decides
//! which path to look up next and when it is done; the caller pulls candidates
//! from its source, looks paths up on disk and reports what it found.
use vstd::prelude::*;

use crate::options::Options;
use crate::path_type::{EntryKind, PathType};
use crate::resolve::{base_dir, base_of, is_absolute, opt_str_view, opt_string_view, resolve, resolved, Platform};

verus! {

/// Where a search stands.
#[derive(Debug, Clone, Copy, PartialEq, Eq, Structural)]
pub enum Stage {
    /// Waiting for the next candidate.
    Wanting,
    /// Waiting for the look-up of the candidate at this index.
    Probing(usize),
    /// The candidate at this index matched.
    Found(usize),
    /// The candidates ran out and none matched.
    Exhausted,
}

/// What the caller should do next.
#[derive(Debug, PartialEq, Eq)]
pub enum Action {
    /// Take the next candidate from the source, if any, and hand it over with
    /// [`Search::offer`] (`None` when the source has run out).
    Next,
    /// Look up `path` on disk, following symbolic links when `follow_symlinks`
    /// is set, and report the outcome with [`Search::record`].
    Probe { path: String, follow_symlinks: bool },
    /// The candidate at `index`, exactly as supplied, matched.
    Found { index: usize, candidate: String },
    /// No candidate matched.
    NotFound,
}

/// Whether a look-up outcome rules a candidate out: nothing was found there, or
/// what was found does not satisfy the filter.
pub open spec fn rejects(kind: PathType, outcome: Option<EntryKind>) -> bool {
    match outcome {
        None => true,
        Some(e) => !kind.accepts(e),
    }
}

/// Whether `candidate` matches when the file system answers look-ups as `fs`
/// does (`fs(path, follow_symlinks)` is what a look-up of `path` finds): it
/// resolves against `base`, and what is found at the resolved path satisfies
/// the filter `kind`.
pub open spec fn matches_on(
    plat: Platform,
    base: Option<Seq<char>>,
    kind: PathType,
    follow: bool,
    fs: spec_fn(Seq<char>, bool) -> Option<EntryKind>,
    candidate: Seq<char>,
) -> bool {
    match resolved(plat, base, candidate) {
        Some(p) => !rejects(kind, fs(p, follow)),
        None => false,
    }
}

/// The index of the first of `candidates` that matches on `fs`, if any.
pub open spec fn first_match(
    plat: Platform,
    base: Option<Seq<char>>,
    kind: PathType,
    follow: bool,
    fs: spec_fn(Seq<char>, bool) -> Option<EntryKind>,
    candidates: Seq<Seq<char>>,
) -> Option<int>
    decreases candidates.len(),
{
    if candidates.len() == 0 {
        None
    } else if matches_on(plat, base, kind, follow, fs, candidates[0]) {
        Some(0)
    } else {
        match first_match(plat, base, kind, follow, fs, candidates.drop_first()) {
            Some(i) => Some(i + 1),
            None => None,
        }
    }
}

/// A search over a sequence of candidate paths, taken one at a time.
pub struct Search {
    platform: Platform,
    candidates: Vec<String>,
    base: Option<String>,
    kind: PathType,
    follow_symlinks: bool,
    stage: Stage,
    probe: Option<String>,
    outcomes: Ghost<Map<int, Option<EntryKind>>>,
}

/// The text of each string.
pub open spec fn texts(v: Seq<String>) -> Seq<Seq<char>> {
    v.map_values(|c: String| c@)
}

impl Search {
    /// The candidates taken so far, as supplied.
    pub closed spec fn candidates(&self) -> Seq<Seq<char>> {
        texts(self.candidates@)
    }

    /// The path rules the search reads candidates by.
    pub closed spec fn platform(&self) -> Platform {
        self.platform
    }

    /// The base directory that relative candidates resolve against.
    pub closed spec fn base(&self) -> Option<Seq<char>> {
        opt_string_view(self.base)
    }

    /// The type filter.
    pub closed spec fn kind(&self) -> PathType {
        self.kind
    }

    /// Whether look-ups follow symbolic links.
    pub closed spec fn follows_symlinks(&self) -> bool {
        self.follow_symlinks
    }

    /// Where the search stands.
    pub closed spec fn stage(&self) -> Stage {
        self.stage
    }

    /// The look-up outcomes reported so far, by candidate index.
    pub closed spec fn outcomes(&self) -> Map<int, Option<EntryKind>> {
        self.outcomes@
    }

    /// The path that the candidate at `i` resolves to.
    pub open spec fn probe_path(&self, i: int) -> Option<Seq<char>> {
        resolved(self.platform(), self.base(), self.candidates()[i])
    }

    /// The search is the one that [`Search::new`] starts with `options`, the
    /// process directory `process_dir` and the rules of `platform`.
    pub open spec fn started_by(&self, options: Options, process_dir: Option<Seq<char>>, platform: Platform) -> bool {
        &&& self.platform() == platform
        &&& self.candidates() == Seq::<Seq<char>>::empty()
        &&& self.base() == base_of(platform, options.cwd_setting(), process_dir)
        &&& self.kind() == options.kind_setting()
        &&& self.follows_symlinks() == options.follows_symlinks()
        &&& self.outcomes() == Map::<int, Option<EntryKind>>::empty()
        &&& self.stage() == Stage::Wanting
    }

    /// Two searches stand in the same state.
    pub open spec fn same_state(&self, other: Search) -> bool {
        &&& self.platform() == other.platform()
        &&& self.candidates() == other.candidates()
        &&& self.base() == other.base()
        &&& self.kind() == other.kind()
        &&& self.follows_symlinks() == other.follows_symlinks()
        &&& self.outcomes() == other.outcomes()
        &&& self.stage() == other.stage()
    }

    /// Every candidate before `end` was ruled out: it did not resolve, or its
    /// reported outcome rejects it.
    pub open spec fn ruled_out_before(&self, end: int) -> bool {
        forall|j: int|
            0 <= j < end && (#[trigger] self.probe_path(j)) is Some ==> self.outcomes().dom().contains(j)
                && rejects(self.kind(), self.outcomes()[j])
    }

    /// The reported outcomes are what `fs` answers for the probed paths.
    pub open spec fn agrees_with(&self, fs: spec_fn(Seq<char>, bool) -> Option<EntryKind>) -> bool {
        forall|j: int|
            #![trigger self.outcomes()[j]]
            self.outcomes().dom().contains(j) && self.probe_path(j) is Some ==> self.outcomes()[j] == fs(
                self.probe_path(j)->0,
                self.follows_symlinks(),
            )
    }

    #[verifier::type_invariant]
    closed spec fn well_formed(&self) -> bool {
        match self.stage {
            Stage::Wanting => self.ruled_out_before(self.candidates@.len() as int),
            Stage::Probing(i) => {
                &&& i + 1 == self.candidates@.len()
                &&& self.probe matches Some(p) && Some(p@) == self.probe_path(i as int)
                &&& self.ruled_out_before(i as int)
            },
            Stage::Found(i) => {
                &&& i + 1 == self.candidates@.len()
                &&& self.probe_path(i as int) is Some
                &&& self.outcomes@.dom().contains(i as int)
                &&& !rejects(self.kind, self.outcomes@[i as int])
                &&& self.ruled_out_before(i as int)
            },
            Stage::Exhausted => self.ruled_out_before(self.candidates@.len() as int),
        }
    }
}

/// Borrow the text of an optional string.
fn as_opt_str(o: &Option<String>) -> (r: Option<&str>)
    ensures
        opt_str_view(r) == opt_string_view(*o),
{
    match o {
        Some(s) => Some(s.as_str()),
        None => None,
    }
}

impl Search {
    /// Start a search with the settings of `options`, reading paths by the rules
    /// of `platform`. `process_dir` is the process working directory, or `None`
    /// when it could not be read; it is needed only for relative candidates and a
    /// relative or process working directory. The search reads no other setting.
    pub fn new(options: &Options, process_dir: Option<&str>, platform: Platform) -> (s: Search)
        ensures
            s.started_by(*options, opt_str_view(process_dir), platform),
    {
        let candidates: Vec<String> = Vec::new();
        assert(texts(candidates@) =~= Seq::<Seq<char>>::empty());
        Search {
            platform,
            candidates,
            base: base_dir(platform, options.cwd_ref(), process_dir),
            kind: options.kind_ref(),
            follow_symlinks: options.follows_ref(),
            stage: Stage::Wanting,
            probe: None,
            outcomes: Ghost(Map::empty()),
        }
    }

    /// What the caller should do next.
    ///
    /// A found candidate is returned exactly as supplied; it resolved, its
    /// look-up satisfied the filter, and every candidate before it was ruled out,
    /// so on any file system that answers as the reports did, it is the first
    /// candidate that matches. Not found means the candidates ran out and every
    /// one of them was ruled out.
    pub fn action(&self) -> (a: Action)
        ensures
            match self.stage() {
                Stage::Wanting => a == Action::Next,
                Stage::Probing(i) => a matches Action::Probe { path, follow_symlinks } && Some(path@)
                    == self.probe_path(i as int) && follow_symlinks == self.follows_symlinks(),
                Stage::Found(i) => a matches Action::Found { index, candidate } && index == i
                    && candidate@ == self.candidates()[i as int],
                Stage::Exhausted => a == Action::NotFound,
            },
            a matches Action::Found { index, candidate } ==> {
                &&& index + 1 == self.candidates().len()
                &&& candidate@ == self.candidates()[index as int]
                &&& self.probe_path(index as int) is Some
                &&& self.outcomes().dom().contains(index as int)
                &&& !rejects(self.kind(), self.outcomes()[index as int])
                &&& self.ruled_out_before(index as int)
                &&& forall|fs: spec_fn(Seq<char>, bool) -> Option<EntryKind>|
                    #[trigger] self.agrees_with(fs) ==> first_match(
                        self.platform(),
                        self.base(),
                        self.kind(),
                        self.follows_symlinks(),
                        fs,
                        self.candidates(),
                    ) == Some(index as int)
            },
            a == Action::NotFound ==> {
                &&& self.ruled_out_before(self.candidates().len() as int)
                &&& forall|fs: spec_fn(Seq<char>, bool) -> Option<EntryKind>|
                    #[trigger] self.agrees_with(fs) ==> first_match(
                        self.platform(),
                        self.base(),
                        self.kind(),
                        self.follows_symlinks(),
                        fs,
                        self.candidates(),
                    ) == None::<int>
            },
    {
        proof {
            use_type_invariant(self);
        }
        match self.stage {
            Stage::Wanting => Action::Next,
            Stage::Probing(_) => match &self.probe {
                Some(p) => Action::Probe { path: p.clone(), follow_symlinks: self.follow_symlinks },
                None => Action::NotFound,
            },
            Stage::Found(i) => {
                assert(self.candidates()[i as int] == self.candidates@[i as int]@);
                proof {
                    assert forall|fs: spec_fn(Seq<char>, bool) -> Option<EntryKind>|
                        #[trigger] self.agrees_with(fs) implies first_match(
                        self.platform(),
                        self.base(),
                        self.kind(),
                        self.follows_symlinks(),
                        fs,
                        self.candidates(),
                    ) == Some(i as int) by {
                        self.lemma_ruled_out_means_no_match(fs, i as int);
                        assert(self.outcomes()[i as int] == fs(self.probe_path(i as int)->0, self.follows_symlinks()));
                        lemma_first_match_at(self.platform(), self.base(), self.kind(), self.follows_symlinks(), fs, self.candidates(), i as int);
                    }
                }
                Action::Found { index: i, candidate: self.candidates[i].clone() }
            },
            Stage::Exhausted => {
                proof {
                    assert forall|fs: spec_fn(Seq<char>, bool) -> Option<EntryKind>|
                        #[trigger] self.agrees_with(fs) implies first_match(
                        self.platform(),
                        self.base(),
                        self.kind(),
                        self.follows_symlinks(),
                        fs,
                        self.candidates(),
                    ) == None::<int> by {
                        self.lemma_ruled_out_means_no_match(fs, self.candidates().len() as int);
                        lemma_first_match_none(self.platform(), self.base(), self.kind(), self.follows_symlinks(), fs, self.candidates());
                    }
                }
                Action::NotFound
            },
        }
    }

    proof fn lemma_ruled_out_means_no_match(&self, fs: spec_fn(Seq<char>, bool) -> Option<EntryKind>, end: int)
        requires
            self.agrees_with(fs),
            self.ruled_out_before(end),
            end <= self.candidates().len(),
        ensures
            forall|j: int|
                0 <= j < end ==> !#[trigger] matches_on(
                    self.platform(),
                    self.base(),
                    self.kind(),
                    self.follows_symlinks(),
                    fs,
                    self.candidates()[j],
                ),
    {
        assert forall|j: int| 0 <= j < end implies !#[trigger] matches_on(
            self.platform(),
            self.base(),
            self.kind(),
            self.follows_symlinks(),
            fs,
            self.candidates()[j],
        ) by {
            if self.probe_path(j) is Some {
                assert(self.outcomes()[j] == fs(self.probe_path(j)->0, self.follows_symlinks()));
            }
        }
    }
}

impl Search {
    /// Hand over the next candidate, or `None` when the source has run out.
    ///
    /// A search that wants a candidate takes it: when the candidate resolves the
    /// search asks for a look-up of its path, otherwise the candidate is ruled
    /// out at once and the next one is wanted. When the source has run out, no
    /// candidate matched. A search that does not want a candidate is left as it
    /// is, and the candidate is not taken.
    pub fn offer(self, candidate: Option<String>) -> (next: Search)
        ensures
            next.platform() == self.platform(),
            next.base() == self.base(),
            next.kind() == self.kind(),
            next.follows_symlinks() == self.follows_symlinks(),
            next.outcomes() == self.outcomes(),
            match (self.stage(), candidate) {
                (Stage::Wanting, Some(c)) => {
                    &&& next.candidates() == self.candidates().push(c@)
                    &&& next.stage() == if resolved(self.platform(), self.base(), c@) is Some {
                        Stage::Probing(self.candidates().len() as usize)
                    } else {
                        Stage::Wanting
                    }
                },
                (Stage::Wanting, None) => next.candidates() == self.candidates() && next.stage()
                    == Stage::Exhausted,
                _ => next.candidates() == self.candidates() && next.stage() == self.stage(),
            },
    {
        proof {
            use_type_invariant(&self);
        }
        let ghost before = self;
        let Search { platform, candidates, base, kind, follow_symlinks, stage, probe, outcomes } = self;
        match (stage, candidate) {
            (Stage::Wanting, Some(c)) => {
                let mut candidates = candidates;
                let i = candidates.len();
                let ghost bv = opt_string_view(base);
                let ghost old_cs = texts(candidates@);
                let found = resolve(platform, as_opt_str(&base), c.as_str());
                candidates.push(c);
                let ghost cs = texts(candidates@);
                assert(cs =~= old_cs.push(cs[i as int]));
                assert(cs[i as int] == candidates@[i as int]@);
                assert forall|j: int|
                    0 <= j < i && (#[trigger] resolved(platform, bv, cs[j])) is Some implies outcomes@.dom().contains(j)
                        && rejects(kind, outcomes@[j]) by {
                    assert(cs[j] == old_cs[j]);
                    assert(before.probe_path(j) == resolved(platform, bv, old_cs[j]));
                }
                match found {
                    Some(p) => Search {
                        platform,
                        candidates,
                        base,
                        kind,
                        follow_symlinks,
                        stage: Stage::Probing(i),
                        probe: Some(p),
                        outcomes,
                    },
                    None => Search {
                        platform,
                        candidates,
                        base,
                        kind,
                        follow_symlinks,
                        stage: Stage::Wanting,
                        probe: None,
                        outcomes,
                    },
                }
            },
            (Stage::Wanting, None) => {
                let ghost cs = texts(candidates@);
                let ghost bv = opt_string_view(base);
                assert forall|j: int|
                    0 <= j < cs.len() && (#[trigger] resolved(platform, bv, cs[j])) is Some implies outcomes@.dom().contains(j)
                        && rejects(kind, outcomes@[j]) by {
                    assert(before.probe_path(j) == resolved(platform, bv, cs[j]));
                }
                Search {
                    platform,
                    candidates,
                    base,
                    kind,
                    follow_symlinks,
                    stage: Stage::Exhausted,
                    probe,
                    outcomes,
                }
            },
            _ => Search { platform, candidates, base, kind, follow_symlinks, stage, probe, outcomes },
        }
    }

    /// Report the outcome of the look-up that the current probe asked for:
    /// `None` when nothing could be read at the path, else the kind of entry
    /// found there.
    ///
    /// A matching entry ends the search with the probed candidate; any other
    /// outcome rules it out and the next candidate is wanted. A search that is
    /// not probing is left as it is.
    pub fn record(self, outcome: Option<EntryKind>) -> (next: Search)
        ensures
            next.platform() == self.platform(),
            next.candidates() == self.candidates(),
            next.base() == self.base(),
            next.kind() == self.kind(),
            next.follows_symlinks() == self.follows_symlinks(),
            match self.stage() {
                Stage::Probing(i) => {
                    &&& next.outcomes() == self.outcomes().insert(i as int, outcome)
                    &&& next.stage() == if rejects(self.kind(), outcome) {
                        Stage::Wanting
                    } else {
                        Stage::Found(i)
                    }
                },
                _ => next.outcomes() == self.outcomes() && next.stage() == self.stage(),
            },
    {
        proof {
            use_type_invariant(&self);
        }
        let ghost before = self;
        let Search { platform, candidates, base, kind, follow_symlinks, stage, probe, outcomes } = self;
        match stage {
            Stage::Probing(i) => {
                let ghost recorded = outcomes@.insert(i as int, outcome);
                let matched = match outcome {
                    Some(e) => kind.matches(e),
                    None => false,
                };
                assert(matched == !rejects(kind, outcome));
                let ghost cs = texts(candidates@);
                let ghost bv = opt_string_view(base);
                assert(before.candidates() == cs && before.base() == bv);
                assert forall|j: int|
                    0 <= j <= i && (#[trigger] resolved(platform, bv, cs[j])) is Some && (j < i || !matched)
                        implies recorded.dom().contains(j) && rejects(kind, recorded[j]) by {
                    assert(before.probe_path(j) == resolved(platform, bv, cs[j]));
                }
                assert(resolved(platform, bv, cs[i as int]) is Some);
                if matched {
                    Search {
                        platform,
                        candidates,
                        base,
                        kind,
                        follow_symlinks,
                        stage: Stage::Found(i),
                        probe,
                        outcomes: Ghost(recorded),
                    }
                } else {
                    Search {
                        platform,
                        candidates,
                        base,
                        kind,
                        follow_symlinks,
                        stage: Stage::Wanting,
                        probe: None,
                        outcomes: Ghost(recorded),
                    }
                }
            },
            _ => Search { platform, candidates, base, kind, follow_symlinks, stage, probe, outcomes },
        }
    }
}

/// The first match is at `i` when the candidate at `i` matches and none before
/// it does.
pub proof fn lemma_first_match_at(
    plat: Platform,
    base: Option<Seq<char>>,
    kind: PathType,
    follow: bool,
    fs: spec_fn(Seq<char>, bool) -> Option<EntryKind>,
    candidates: Seq<Seq<char>>,
    i: int,
)
    requires
        0 <= i < candidates.len(),
        matches_on(plat, base, kind, follow, fs, candidates[i]),
        forall|j: int| 0 <= j < i ==> !#[trigger] matches_on(plat, base, kind, follow, fs, candidates[j]),
    ensures
        first_match(plat, base, kind, follow, fs, candidates) == Some(i),
    decreases i,
{
    if i > 0 {
        let rest = candidates.drop_first();
        assert(!matches_on(plat, base, kind, follow, fs, candidates[0]));
        assert forall|j: int| 0 <= j < i - 1 implies !#[trigger] matches_on(plat, base, kind, follow, fs, rest[j]) by {
            assert(rest[j] == candidates[j + 1]);
        }
        assert(rest[i - 1] == candidates[i]);
        lemma_first_match_at(plat, base, kind, follow, fs, rest, i - 1);
    }
}

/// There is no first match when no candidate matches.
pub proof fn lemma_first_match_none(
    plat: Platform,
    base: Option<Seq<char>>,
    kind: PathType,
    follow: bool,
    fs: spec_fn(Seq<char>, bool) -> Option<EntryKind>,
    candidates: Seq<Seq<char>>,
)
    requires
        forall|j: int| 0 <= j < candidates.len() ==> !#[trigger] matches_on(plat, base, kind, follow, fs, candidates[j]),
    ensures
        first_match(plat, base, kind, follow, fs, candidates) == None::<int>,
    decreases candidates.len(),
{
    if candidates.len() > 0 {
        let rest = candidates.drop_first();
        assert(!matches_on(plat, base, kind, follow, fs, candidates[0]));
        assert forall|j: int| 0 <= j < rest.len() implies !#[trigger] matches_on(plat, base, kind, follow, fs, rest[j]) by {
            assert(rest[j] == candidates[j + 1]);
        }
        lemma_first_match_none(plat, base, kind, follow, fs, rest);
    }
}

proof fn lemma_first_match_meaning(
    plat: Platform,
    base: Option<Seq<char>>,
    kind: PathType,
    follow: bool,
    fs: spec_fn(Seq<char>, bool) -> Option<EntryKind>,
    candidates: Seq<Seq<char>>,
)
    ensures
        match first_match(plat, base, kind, follow, fs, candidates) {
            Some(i) => 0 <= i < candidates.len() && matches_on(plat, base, kind, follow, fs, candidates[i])
                && forall|j: int| 0 <= j < i ==> !#[trigger] matches_on(plat, base, kind, follow, fs, candidates[j]),
            None => forall|j: int|
                0 <= j < candidates.len() ==> !#[trigger] matches_on(plat, base, kind, follow, fs, candidates[j]),
        },
    decreases candidates.len(),
{
    if candidates.len() > 0 {
        let rest = candidates.drop_first();
        lemma_first_match_meaning(plat, base, kind, follow, fs, rest);
        if !matches_on(plat, base, kind, follow, fs, candidates[0]) {
            match first_match(plat, base, kind, follow, fs, rest) {
                Some(i) => {
                    assert(rest[i] == candidates[i + 1]);
                    assert forall|j: int| 0 <= j < i + 1 implies !#[trigger] matches_on(
                        plat,
                        base,
                        kind,
                        follow,
                        fs,
                        candidates[j],
                    ) by {
                        if j > 0 {
                            assert(candidates[j] == rest[j - 1]);
                        }
                    }
                },
                None => {
                    assert forall|j: int| 0 <= j < candidates.len() implies !#[trigger] matches_on(
                        plat,
                        base,
                        kind,
                        follow,
                        fs,
                        candidates[j],
                    ) by {
                        if j > 0 {
                            assert(candidates[j] == rest[j - 1]);
                        }
                    }
                },
            }
        }
    }
}

/// Candidates that do not match can be dropped from the front: the search goes
/// past them, and finds in what follows what it would find there alone.
pub proof fn law_non_matching_prefix_is_skipped(
    plat: Platform,
    base: Option<Seq<char>>,
    kind: PathType,
    follow: bool,
    fs: spec_fn(Seq<char>, bool) -> Option<EntryKind>,
    xs: Seq<Seq<char>>,
    ys: Seq<Seq<char>>,
)
    requires
        forall|j: int| 0 <= j < xs.len() ==> !#[trigger] matches_on(plat, base, kind, follow, fs, xs[j]),
    ensures
        first_match(plat, base, kind, follow, fs, xs + ys) == match first_match(plat, base, kind, follow, fs, ys) {
            Some(i) => Some(i + xs.len()),
            None => None::<int>,
        },
{
    let all = xs + ys;
    lemma_first_match_meaning(plat, base, kind, follow, fs, ys);
    match first_match(plat, base, kind, follow, fs, ys) {
        Some(i) => {
            assert(all[i + xs.len()] == ys[i]);
            assert forall|j: int| 0 <= j < i + xs.len() implies !#[trigger] matches_on(
                plat,
                base,
                kind,
                follow,
                fs,
                all[j],
            ) by {
                if j < xs.len() {
                    assert(all[j] == xs[j]);
                } else {
                    assert(all[j] == ys[j - xs.len()]);
                }
            }
            lemma_first_match_at(plat, base, kind, follow, fs, all, i + xs.len());
        },
        None => {
            assert forall|j: int| 0 <= j < all.len() implies !#[trigger] matches_on(
                plat,
                base,
                kind,
                follow,
                fs,
                all[j],
            ) by {
                if j < xs.len() {
                    assert(all[j] == xs[j]);
                } else {
                    assert(all[j] == ys[j - xs.len()]);
                }
            }
            lemma_first_match_none(plat, base, kind, follow, fs, all);
        },
    }
}

/// After candidates that do not match, a matching candidate is the answer,
/// whatever comes after it.
pub proof fn law_first_matching_candidate_wins(
    plat: Platform,
    base: Option<Seq<char>>,
    kind: PathType,
    follow: bool,
    fs: spec_fn(Seq<char>, bool) -> Option<EntryKind>,
    xs: Seq<Seq<char>>,
    c: Seq<char>,
    zs: Seq<Seq<char>>,
)
    requires
        forall|j: int| 0 <= j < xs.len() ==> !#[trigger] matches_on(plat, base, kind, follow, fs, xs[j]),
        matches_on(plat, base, kind, follow, fs, c),
    ensures
        first_match(plat, base, kind, follow, fs, xs + seq![c] + zs) == Some(xs.len() as int),
{
    let all = xs + seq![c] + zs;
    assert(all[xs.len() as int] == c);
    assert forall|j: int| 0 <= j < xs.len() implies !#[trigger] matches_on(plat, base, kind, follow, fs, all[j]) by {
        assert(all[j] == xs[j]);
    }
    lemma_first_match_at(plat, base, kind, follow, fs, all, xs.len() as int);
}

/// What comes after a match does not change it: a search that stops at the
/// first match, having taken only the candidates up to it, answers as one that
/// had every candidate.
pub proof fn law_later_candidates_do_not_matter(
    plat: Platform,
    base: Option<Seq<char>>,
    kind: PathType,
    follow: bool,
    fs: spec_fn(Seq<char>, bool) -> Option<EntryKind>,
    taken: Seq<Seq<char>>,
    rest: Seq<Seq<char>>,
)
    requires
        first_match(plat, base, kind, follow, fs, taken) is Some,
    ensures
        first_match(plat, base, kind, follow, fs, taken + rest) == first_match(plat, base, kind, follow, fs, taken),
{
    lemma_first_match_meaning(plat, base, kind, follow, fs, taken);
    let i = first_match(plat, base, kind, follow, fs, taken)->0;
    let all = taken + rest;
    assert(all[i] == taken[i]);
    assert forall|j: int| 0 <= j < i implies !#[trigger] matches_on(plat, base, kind, follow, fs, all[j]) by {
        assert(all[j] == taken[j]);
    }
    lemma_first_match_at(plat, base, kind, follow, fs, all, i);
}

/// When every candidate is absolute, the base, and so the working directory,
/// does not change the answer.
pub proof fn law_absolute_candidates_ignore_cwd(
    plat: Platform,
    base1: Option<Seq<char>>,
    base2: Option<Seq<char>>,
    kind: PathType,
    follow: bool,
    fs: spec_fn(Seq<char>, bool) -> Option<EntryKind>,
    candidates: Seq<Seq<char>>,
)
    requires
        forall|j: int| 0 <= j < candidates.len() ==> is_absolute(plat, #[trigger] candidates[j]),
    ensures
        first_match(plat, base1, kind, follow, fs, candidates) == first_match(plat, base2, kind, follow, fs, candidates),
    decreases candidates.len(),
{
    if candidates.len() > 0 {
        let rest = candidates.drop_first();
        assert(is_absolute(plat, candidates[0]));
        assert forall|j: int| 0 <= j < rest.len() implies is_absolute(plat, #[trigger] rest[j]) by {
            assert(rest[j] == candidates[j + 1]);
        }
        law_absolute_candidates_ignore_cwd(plat, base1, base2, kind, follow, fs, rest);
    }
}

/// A search reads only the working directory, the type filter and the symbolic
/// link setting: two searches started from options that differ only in the
/// concurrency limit or in keeping order are in the same state, and since every
/// step is stated over that state alone, they go on alike.
pub proof fn law_scheduling_settings_do_not_matter(
    s1: Search,
    s2: Search,
    o1: Options,
    o2: Options,
    process_dir: Option<Seq<char>>,
    platform: Platform,
)
    requires
        s1.started_by(o1, process_dir, platform),
        s2.started_by(o2, process_dir, platform),
        o1.cwd_setting() == o2.cwd_setting(),
        o1.kind_setting() == o2.kind_setting(),
        o1.follows_symlinks() == o2.follows_symlinks(),
    ensures
        s1.same_state(s2),
{
}

} // verus!
