//! Which of several candidates serves a request best, if any does.
//!
//! With more candidates than the shortlist holds, a first call skims all of them and its
//! probabilities settle the shortlist. The last call looks at the shortlist more closely
//! and asks of each candidate in it whether it fits at all.

use crate::answer::{
    answer_at, answer_choice_among, answer_confidence, answer_noul, answer_probabilities_among,
    answered, choice_among, confidence_in, law_choices_in_answers, law_numbers_in_answers,
    law_probabilities_in_answers, noul_in, probabilities_among,
};
use crate::bulk::{law_answers_are_read_in_turn, lemma_read_stops, read_each};
use crate::document::{reals_by_key, text_or_null, text_or_null_json, text_trees, texts_json};
use crate::error::{invalid_params_error, Fault, ToolError};
use crate::json::{at, fields_are, has_field, holds, real_tree, spec_as_real, Json, Tree};
use crate::question::{
    call_body, call_tree, law_calls_hold_what_they_ask, law_choices_are_sent,
    law_yes_and_no_are_sent, model_follows, model_or_default, noul, noul_qv, spec_model, Question,
    QuestionView, MAX_OPTIONS,
};
use crate::ranking::{
    best_first, law_best_first_order_exists, places_best_first, precedes, rank_places,
};
use crate::reals::{
    lemma_threshold_follows, spec_threshold, threshold, threshold_follows, Real, THREE_TENTHS, ZERO,
};
use crate::table::{
    in_order, lemma_ascending_distinct, lemma_in_order, lemma_walk_in_order, walks, Table,
};
use crate::text::{
    before, copy_optional, decimal, decimal_text, first_repeated, join2, join3, join5,
    law_first_repeated, optional_text, same_text, texts,
};
use vstd::prelude::*;
use vstd::string::*;

verus! {

/// How many candidates the shortlist holds unless the caller says otherwise.
pub const DEFAULT_SHORTLIST: usize = 3;

/// The most candidates that the shortlist may hold.
pub const MAX_SHORTLIST: usize = 10;

/// A candidate with what describes it.
pub struct CandidateSpec {
    pub id: String,
    /// What the skim of all candidates goes by.
    pub description: Option<String>,
    /// What the closer look goes by.
    pub details: Option<String>,
}

/// A candidate as a caller gives it.
pub enum Candidate {
    Plain(String),
    Detailed(CandidateSpec),
}

/// What `choose_one` takes.
pub struct ChooseOneArgs {
    pub request: String,
    pub candidates: Vec<Candidate>,
    pub shortlist_size: Option<usize>,
    pub min_fit: Option<Real>,
    pub model: Option<String>,
}

/// What a candidate says.
pub struct CandidateView {
    pub id: Seq<char>,
    pub description: Option<Seq<char>>,
    pub details: Option<Seq<char>>,
}

impl View for CandidateSpec {
    type V = CandidateView;

    open spec fn view(&self) -> CandidateView {
        CandidateView {
            id: self.id@,
            description: optional_text(self.description),
            details: optional_text(self.details),
        }
    }
}

impl View for Candidate {
    type V = CandidateView;

    open spec fn view(&self) -> CandidateView {
        match *self {
            Candidate::Plain(id) => CandidateView { id: id@, description: None, details: None },
            Candidate::Detailed(spec) => spec@,
        }
    }
}

impl CandidateSpec {
    fn copy(&self) -> (r: CandidateSpec)
        ensures
            r@ == self@,
    {
        CandidateSpec {
            id: self.id.clone(),
            description: copy_optional(&self.description),
            details: copy_optional(&self.details),
        }
    }
}

/// What candidates as a caller gives them say.
pub open spec fn offered(candidates: Seq<Candidate>) -> Seq<CandidateView> {
    candidates.map_values(|c: Candidate| c@)
}

/// What candidates say.
pub open spec fn described(candidates: Seq<CandidateSpec>) -> Seq<CandidateView> {
    candidates.map_values(|c: CandidateSpec| c@)
}

/// The ids of candidates.
pub open spec fn ids(candidates: Seq<CandidateView>) -> Seq<Seq<char>> {
    candidates.map_values(|c: CandidateView| c.id)
}

/// Why candidates are refused.
pub open spec fn candidates_fault(candidates: Seq<CandidateView>) -> Option<Seq<char>> {
    if candidates.len() == 0 {
        Some("'candidates' must contain at least one candidate"@)
    } else if candidates.len() > MAX_OPTIONS {
        Some(
            "'candidates' has "@ + decimal(candidates.len())
                + " entries; the maximum is 255 (pre-filter with rank_items or a first Choice)"@,
        )
    } else {
        match first_repeated(ids(candidates), 0) {
            Some(id) => Some("duplicate candidate id '"@ + id + "'"@),
            None => None,
        }
    }
}

/// How many candidates the shortlist holds.
pub open spec fn spec_shortlist_size(asked: Option<usize>) -> int {
    match asked {
        Some(n) => if n < 1 {
            1
        } else if n > MAX_SHORTLIST {
            MAX_SHORTLIST as int
        } else {
            n as int
        },
        None => DEFAULT_SHORTLIST as int,
    }
}

fn shortlist_size_or_default(asked: Option<usize>) -> (r: usize)
    ensures
        r == spec_shortlist_size(asked),
{
    match asked {
        Some(n) => if n < 1 {
            1
        } else if n > MAX_SHORTLIST {
            MAX_SHORTLIST
        } else {
            n
        },
        None => DEFAULT_SHORTLIST,
    }
}

/// What the skim goes by: the description of each candidate.
pub open spec fn skim_criteria(candidates: Seq<CandidateView>) -> Map<Seq<char>, Tree>
    decreases candidates.len(),
{
    if candidates.len() == 0 {
        Map::empty()
    } else {
        skim_criteria(candidates.drop_last()).insert(
            candidates.last().id,
            text_or_null(candidates.last().description),
        )
    }
}

/// What the closer look at a candidate goes by: its details, or else its description.
pub open spec fn fuller_text(c: CandidateView) -> Tree {
    match c.details {
        Some(t) => Tree::Text(t),
        None => text_or_null(c.description),
    }
}

fn fuller_json(c: &CandidateSpec) -> (r: Json)
    ensures
        r@ == fuller_text(c@),
{
    match &c.details {
        Some(t) => Json::text(t),
        None => text_or_null_json(&c.description),
    }
}

/// What the closer look goes by.
pub open spec fn verify_criteria(candidates: Seq<CandidateView>) -> Map<Seq<char>, Tree>
    decreases candidates.len(),
{
    if candidates.len() == 0 {
        Map::empty()
    } else {
        verify_criteria(candidates.drop_last()).insert(
            candidates.last().id,
            fuller_text(candidates.last()),
        )
    }
}

/// The question that skims all candidates.
pub open spec fn skim_questions(candidates: Seq<CandidateView>) -> Map<Seq<char>, QuestionView> {
    map![
        "which"@ => QuestionView::Choice {
            instructions: Tree::Text(
                "Which candidate best fits `request`? Judge each candidate by what its description says; pick the single best fit."@,
            ),
            criteria: skim_criteria(candidates),
        },
    ]
}

/// The body of the call that skims all candidates.
pub open spec fn skim_call(
    request: Seq<char>,
    candidates: Seq<CandidateView>,
    model: Seq<char>,
) -> Tree {
    call_tree(
        Tree::Object(map!["request"@ => Tree::Text(request)]),
        skim_questions(candidates),
        model,
    )
}

/// The name of the question whether a candidate fits.
pub open spec fn fit_id(id: Seq<char>) -> Seq<char> {
    "fits_"@ + id
}

/// The question whether the candidate `id`, at the place `i` of the shortlist, fits.
pub open spec fn fit_question(i: nat, id: Seq<char>) -> QuestionView {
    noul(
        Tree::Object(
            map![
                "criterion"@ => Tree::Text(
                    "Does `shortlist["@ + decimal(i) + "]` (candidate '"@ + id
                        + "') do the specific thing that `request` asks for, well enough to be chosen?"@,
                ),
                "focus"@ => Tree::Text(
                    "Judge the capability actually described, not the name."@,
                ),
            ],
        ),
    )
}

/// The questions that look at the first `n` candidates of the shortlist more closely.
pub open spec fn verify_questions(short: Seq<CandidateView>, n: nat) -> Map<
    Seq<char>,
    QuestionView,
>
    decreases n,
{
    if n == 0 {
        map![
            "which"@ => QuestionView::Choice {
                instructions: Tree::Text(
                    "Exactly one of these candidates is the best fit for `request`. Which one? Judge what each candidate actually is or does, not just its name."@,
                ),
                criteria: verify_criteria(short),
            },
        ]
    } else {
        verify_questions(short, (n - 1) as nat).insert(
            fit_id(short[n - 1].id),
            fit_question((n - 1) as nat, short[n - 1].id),
        )
    }
}

/// How a candidate of the shortlist stands in the state of the call.
pub open spec fn shortlist_entry(c: CandidateView) -> Tree {
    Tree::Object(map!["id"@ => Tree::Text(c.id), "text"@ => fuller_text(c)])
}

/// The body of the call that looks at the shortlist more closely.
pub open spec fn verify_call(
    request: Seq<char>,
    short: Seq<CandidateView>,
    model: Seq<char>,
) -> Tree {
    call_tree(
        Tree::Object(
            map![
                "request"@ => Tree::Text(request),
                "shortlist"@ => Tree::Array(
                    short.map_values(|c: CandidateView| shortlist_entry(c)),
                ),
            ],
        ),
        verify_questions(short, short.len()),
        model,
    )
}

/// The values at `keys`.
pub open spec fn values_at(probabilities: Map<Seq<char>, Real>, keys: Seq<Seq<char>>) -> Seq<Real> {
    keys.map_values(|k: Seq<char>| probabilities[k])
}

/// The shortlist that the probabilities of a skim settle: the `size` most probable ids,
/// most probable first, and of equally probable ones the first in the order of ids.
pub open spec fn shortlist_of(probabilities: Map<Seq<char>, Real>, size: int) -> Seq<Seq<char>> {
    let keys = in_order(probabilities.dom());
    let order = places_best_first(values_at(probabilities, keys));
    Seq::new(
        (if size < keys.len() {
            size as nat
        } else {
            keys.len()
        }),
        |i: int| keys[order[i] as int],
    )
}

/// The shortlist that the response to a skim of `candidates` settles.
pub open spec fn shortlist_in(
    body: Tree,
    candidates: Seq<CandidateView>,
    size: int,
) -> Result<Seq<Seq<char>>, Fault> {
    match probabilities_among(body, "which"@, skim_criteria(candidates).dom()) {
        Err(e) => Err(e),
        Ok(probabilities) => Ok(shortlist_of(probabilities, size)),
    }
}

/// The first candidate, from the place `i` on, with the id `id`.
pub open spec fn named_from(candidates: Seq<CandidateView>, id: Seq<char>, i: int) -> Option<
    CandidateView,
>
    decreases candidates.len() - i,
{
    if i >= candidates.len() {
        None
    } else if candidates[i].id == id {
        Some(candidates[i])
    } else {
        named_from(candidates, id, i + 1)
    }
}

/// The candidates that the ids of the shortlist name.
pub open spec fn named(candidates: Seq<CandidateView>, shortlist: Seq<Seq<char>>) -> Seq<
    CandidateView,
>
    decreases shortlist.len(),
{
    if shortlist.len() == 0 {
        Seq::empty()
    } else {
        let before = named(candidates, shortlist.drop_last());
        match named_from(candidates, shortlist.last(), 0) {
            Some(c) => before.push(c),
            None => before,
        }
    }
}

/// Whether all ids of the shortlist are ids of candidates.
pub open spec fn all_named(candidates: Seq<CandidateView>, shortlist: Seq<Seq<char>>) -> bool {
    forall|i: int|
        0 <= i < shortlist.len() ==> ids(candidates).contains(#[trigger] shortlist[i])
}

/// What the closer look found.
pub struct Verdict {
    pub choice: String,
    pub confidence: Real,
    pub probabilities: Table<Real>,
    /// How well each candidate of the shortlist fits.
    pub fits: Vec<Real>,
}

/// What a verdict says.
pub struct VerdictView {
    pub choice: Seq<char>,
    pub confidence: Real,
    pub probabilities: Map<Seq<char>, Real>,
    pub fits: Seq<Real>,
}

impl View for Verdict {
    type V = VerdictView;

    open spec fn view(&self) -> VerdictView {
        VerdictView {
            choice: self.choice@,
            confidence: self.confidence,
            probabilities: self.probabilities@,
            fits: self.fits@,
        }
    }
}

/// How the answer whether the candidate at the place `i` of the shortlist fits is read.
pub open spec fn fit_reading(short: Seq<CandidateView>) -> spec_fn(Tree, nat) -> Result<
    Real,
    Fault,
> {
    |body: Tree, i: nat| noul_in(body, fit_id(short[i as int].id))
}

/// What the response to the closer look says: the choice is read first, then its
/// confidence, the probabilities, and the fit of each candidate in turn. Both the choice and
/// the probabilities keep to the shortlist.
pub open spec fn verdict_in(body: Tree, short: Seq<CandidateView>) -> Result<VerdictView, Fault> {
    match choice_among(body, "which"@, verify_criteria(short).dom()) {
        Err(e) => Err(e),
        Ok(choice) => match confidence_in(body, "which"@) {
            Err(e) => Err(e),
            Ok(confidence) => match probabilities_among(
                body,
                "which"@,
                verify_criteria(short).dom(),
            ) {
                Err(e) => Err(e),
                Ok(probabilities) => match read_each(body, short.len(), fit_reading(short)) {
                    Err(e) => Err(e),
                    Ok(fits) => Ok(VerdictView { choice, confidence, probabilities, fits }),
                },
            },
        },
    }
}

/// Whether the best of the fits, or 0 where none is above it, lies below `min_fit`.
pub open spec fn rejects(fits: Seq<Real>, min_fit: Real) -> bool {
    &&& (Real { bits: ZERO }).spec_lt(min_fit)
    &&& forall|i: int| 0 <= i < fits.len() ==> !(#[trigger] fits[i]).spec_ge(min_fit)
}

/// The fit of each of the first `n` candidates of the shortlist.
pub open spec fn fits_map(short: Seq<CandidateView>, fits: Seq<Real>, n: nat) -> Map<
    Seq<char>,
    Tree,
>
    decreases n,
{
    if n == 0 {
        Map::empty()
    } else {
        fits_map(short, fits, (n - 1) as nat).insert(short[n - 1].id, real_tree(fits[n - 1]))
    }
}

/// The probabilities that a skim gave, if there was one.
pub open spec fn skim_view(skimmed: Option<Table<Real>>) -> Option<Map<Seq<char>, Real>> {
    match skimmed {
        Some(p) => Some(p@),
        None => None,
    }
}

/// What is reported, where `skimmed` holds the probabilities that settled the shortlist, if
/// it took a skim to settle it.
pub open spec fn choose_report(
    candidates: Seq<CandidateView>,
    shortlist: Seq<Seq<char>>,
    skimmed: Option<Map<Seq<char>, Real>>,
    verdict: VerdictView,
    min_fit: Real,
    passes: int,
) -> Tree {
    let plain = verdict_fields(candidates, shortlist, verdict, min_fit, passes);
    Tree::Object(
        match skimmed {
            Some(p) => plain.insert(
                "skim_probabilities"@,
                Tree::Object(p.map_values(|p: Real| real_tree(p))),
            ),
            None => plain,
        },
    )
}

/// What is reported of the verdict on a shortlist.
pub open spec fn verdict_fields(
    candidates: Seq<CandidateView>,
    shortlist: Seq<Seq<char>>,
    verdict: VerdictView,
    min_fit: Real,
    passes: int,
) -> Map<Seq<char>, Tree> {
    let short = named(candidates, shortlist);
    let rejected = rejects(verdict.fits, min_fit);
    map![
        "choice"@ => if rejected {
            Tree::Null
        } else {
            Tree::Text(verdict.choice)
        },
        "rejected"@ => Tree::Bool(rejected),
        "confidence"@ => real_tree(verdict.confidence),
        "selection_probabilities"@ => Tree::Object(
            verdict.probabilities.map_values(|p: Real| real_tree(p)),
        ),
        "shortlist"@ => Tree::Array(text_trees(shortlist)),
        "fits"@ => Tree::Object(fits_map(short, verdict.fits, short.len())),
        "passes"@ => Tree::Integer(passes),
    ]
}

/// A choice on its way through the calls.
pub struct ChooseRun {
    pub request: String,
    pub candidates: Vec<CandidateSpec>,
    pub shortlist_size: usize,
    pub min_fit: Real,
    pub model: String,
    /// The ids on the shortlist, once it is settled.
    pub shortlist: Option<Vec<String>>,
    /// The probabilities that settled the shortlist, where it took a skim.
    pub skimmed: Option<Table<Real>>,
    /// What the closer look found, once it was answered.
    pub verdict: Option<Verdict>,
}

/// Whether the id at the place `i` stood before.
fn repeats(candidates: &Vec<CandidateSpec>, i: usize) -> (r: bool)
    requires
        i < candidates@.len(),
    ensures
        r == ids(described(candidates@)).take(i as int).contains(
            ids(described(candidates@))[i as int],
        ),
{
    let ghost all = ids(described(candidates@));
    let mut j: usize = 0;
    while j < i
        invariant
            j <= i < candidates@.len(),
            all == ids(described(candidates@)),
            forall|k: int| 0 <= k < j ==> #[trigger] all[k] != all[i as int],
        decreases i - j,
    {
        if same_text(&candidates[j].id, &candidates[i].id) {
            assert(all.take(i as int)[j as int] == all[i as int]);
            return true;
        }
        assert(all[j as int] != all[i as int]);
        j = j + 1;
    }
    assert forall|k: int| 0 <= k < i implies all.take(i as int)[k] != all[i as int] by {
        assert(all[k] != all[i as int]);
    }
    false
}

/// What the closer look goes by.
fn verify_table(short: &Vec<CandidateSpec>) -> (r: Table<Json>)
    ensures
        r@ == verify_criteria(described(short@)),
{
    let ghost all = described(short@);
    let mut criteria: Table<Json> = Table::new();
    let mut i: usize = 0;
    while i < short.len()
        invariant
            i <= short@.len(),
            all == described(short@),
            criteria@ == verify_criteria(all.take(i as int)),
        decreases short.len() - i,
    {
        let c = &short[i];
        criteria.insert(c.id.clone(), fuller_json(c));
        proof {
            assert(all.take(i + 1).drop_last() =~= all.take(i as int));
            assert(all.take(i + 1).last() == c@);
        }
        i = i + 1;
    }
    assert(all.take(i as int) =~= all);
    criteria
}

fn spelled_out(candidates: Vec<Candidate>) -> (r: Vec<CandidateSpec>)
    ensures
        described(r@) == offered(candidates@),
{
    let mut r: Vec<CandidateSpec> = Vec::new();
    let mut i: usize = 0;
    while i < candidates.len()
        invariant
            i <= candidates@.len(),
            r@.len() == i,
            forall|k: int| 0 <= k < i ==> (#[trigger] r@[k])@ == candidates@[k]@,
        decreases candidates.len() - i,
    {
        match &candidates[i] {
            Candidate::Plain(id) => {
                r.push(CandidateSpec { id: id.clone(), description: None, details: None });
            },
            Candidate::Detailed(spec) => {
                r.push(spec.copy());
            },
        }
        i = i + 1;
    }
    assert(described(r@) =~= offered(candidates@));
    r
}

/// Begins to choose: refuses candidates that are none, too many or not told apart before
/// anything is asked.
pub fn choose_one(args: ChooseOneArgs) -> (r: Result<ChooseRun, ToolError>)
    ensures
        match r {
            Ok(run) => {
                &&& candidates_fault(offered(args.candidates@)) is None
                &&& run.wf()
                &&& run.request == args.request
                &&& described(run.candidates@) == offered(args.candidates@)
                &&& run.shortlist_size == spec_shortlist_size(args.shortlist_size)
                &&& run.min_fit == spec_threshold(args.min_fit, THREE_TENTHS)
                &&& run.model@ == spec_model(args.model)
                &&& run.verdict is None
                &&& run.shortlist is None <==> run.two_passes()
            },
            Err(e) => candidates_fault(offered(args.candidates@)) is Some && e@
                == Fault::InvalidParams(candidates_fault(offered(args.candidates@))->0),
        },
{
    let n = args.candidates.len();
    if n == 0 {
        return Err(
            invalid_params_error("'candidates' must contain at least one candidate".to_string()),
        );
    }
    if n > MAX_OPTIONS {
        return Err(
            invalid_params_error(
                join3(
                    "'candidates' has ",
                    &decimal_text(n as u64),
                    " entries; the maximum is 255 (pre-filter with rank_items or a first Choice)",
                ),
            ),
        );
    }
    let shortlist_size = shortlist_size_or_default(args.shortlist_size);
    let min_fit = threshold(args.min_fit, THREE_TENTHS);
    let model = model_or_default(args.model);
    let candidates = spelled_out(args.candidates);
    let ghost all = ids(described(candidates@));
    let mut i: usize = 0;
    while i < candidates.len()
        invariant
            i <= candidates@.len(),
            all == ids(described(candidates@)),
            described(candidates@) == offered(args.candidates@),
            1 <= candidates@.len() <= MAX_OPTIONS,
            first_repeated(all, 0) == first_repeated(all, i as int),
            forall|a: int, b: int|
                0 <= a < b < i ==> #[trigger] all[a] != #[trigger] all[b],
        decreases candidates.len() - i,
    {
        if repeats(&candidates, i) {
            return Err(
                invalid_params_error(join3("duplicate candidate id '", &candidates[i].id, "'")),
            );
        }
        assert forall|a: int| 0 <= a < i implies #[trigger] all[a] != all[i as int] by {
            assert(all.take(i as int)[a] == all[a]);
        }
        i = i + 1;
    }
    let two_passes = candidates.len() > shortlist_size;
    let shortlist = if two_passes {
        None
    } else {
        let mut list: Vec<String> = Vec::new();
        let mut j: usize = 0;
        while j < candidates.len()
            invariant
                j <= candidates@.len(),
                all == ids(described(candidates@)),
                texts(list@) == all.take(j as int),
            decreases candidates.len() - j,
        {
            let ghost was = list@;
            list.push(candidates[j].id.clone());
            assert(texts(list@) =~= texts(was).push(all[j as int]));
            assert(all.take(j + 1) =~= all.take(j as int).push(all[j as int]));
            j = j + 1;
        }
        assert(all.take(j as int) =~= all);
        Some(list)
    };
    assert(all.no_duplicates()) by {
        assert forall|a: int, b: int|
            0 <= a < all.len() && 0 <= b < all.len() && a != b implies all[a] != all[b] by {
            if a < b {
                assert(all[a] != all[b]);
            } else {
                assert(all[b] != all[a]);
            }
        }
    }
    Ok(
        ChooseRun {
            request: args.request,
            candidates,
            shortlist_size,
            min_fit,
            model,
            shortlist,
            skimmed: None,
            verdict: None,
        },
    )
}

impl ChooseRun {
    /// Whether there are more candidates than the shortlist holds.
    pub open spec fn two_passes(&self) -> bool {
        self.candidates@.len() > self.shortlist_size
    }

    /// How many calls the choice takes.
    pub open spec fn spec_passes(&self) -> int {
        if self.two_passes() {
            2
        } else {
            1
        }
    }

    /// The candidates on the shortlist.
    pub open spec fn short(&self) -> Seq<CandidateView> {
        named(described(self.candidates@), texts(self.shortlist->0@))
    }

    pub open spec fn wf(&self) -> bool {
        &&& 1 <= self.candidates@.len() <= MAX_OPTIONS
        &&& ids(described(self.candidates@)).no_duplicates()
        &&& 1 <= self.shortlist_size <= MAX_SHORTLIST
        &&& self.shortlist is None ==> self.verdict is None && self.two_passes()
        &&& !self.two_passes() ==> self.shortlist is Some && texts(self.shortlist->0@) == ids(
            described(self.candidates@),
        )
        &&& self.shortlist is Some ==> self.shortlist->0@.len() <= MAX_OPTIONS
            && texts(self.shortlist->0@).no_duplicates() && all_named(
            described(self.candidates@),
            texts(self.shortlist->0@),
        )
        &&& self.skimmed is Some <==> self.two_passes() && self.shortlist is Some
        &&& self.skimmed is Some ==> texts(self.shortlist->0@) == shortlist_of(
            self.skimmed->0@,
            self.shortlist_size as int,
        )
        &&& self.verdict is Some ==> self.verdict->0.fits@.len() == self.short().len() && ids(
            self.short(),
        ).contains(self.verdict->0.choice@)
    }

    /// The candidates that the shortlist names.
    fn shortlisted(&self, shortlist: &Vec<String>) -> (r: Vec<CandidateSpec>)
        ensures
            described(r@) == named(described(self.candidates@), texts(shortlist@)),
            r@.len() <= shortlist@.len(),
    {
        let ghost all = described(self.candidates@);
        let ghost list = texts(shortlist@);
        let mut r: Vec<CandidateSpec> = Vec::new();
        let mut i: usize = 0;
        assert(described(r@) =~= named(all, list.take(0)));
        while i < shortlist.len()
            invariant
                i <= shortlist@.len(),
                all == described(self.candidates@),
                list == texts(shortlist@),
                r@.len() <= i,
                described(r@) == named(all, list.take(i as int)),
            decreases shortlist.len() - i,
        {
            let ghost id = list[i as int];
            assert(list.take(i + 1).drop_last() =~= list.take(i as int));
            let mut j: usize = 0;
            while j < self.candidates.len() && !same_text(&self.candidates[j].id, &shortlist[i])
                invariant
                    j <= self.candidates@.len(),
                    i < shortlist@.len(),
                    all == described(self.candidates@),
                    id == shortlist@[i as int]@,
                    named_from(all, id, 0) == named_from(all, id, j as int),
                decreases self.candidates.len() - j,
            {
                assert(all[j as int].id == self.candidates@[j as int].id@);
                j = j + 1;
            }
            if j < self.candidates.len() {
                let ghost was = r@;
                r.push(self.candidates[j].copy());
                assert(all[j as int] == self.candidates@[j as int]@);
                assert(described(r@) =~= described(was).push(all[j as int]));
            }
            i = i + 1;
        }
        assert(list.take(i as int) =~= list);
        r
    }

    /// What the skim goes by.
    fn skim_table(&self) -> (r: Table<Json>)
        ensures
            r@ == skim_criteria(described(self.candidates@)),
    {
        let ghost all = described(self.candidates@);
        let mut criteria: Table<Json> = Table::new();
        let mut i: usize = 0;
        while i < self.candidates.len()
            invariant
                i <= self.candidates@.len(),
                all == described(self.candidates@),
                criteria@ == skim_criteria(all.take(i as int)),
            decreases self.candidates.len() - i,
        {
            let c = &self.candidates[i];
            criteria.insert(c.id.clone(), text_or_null_json(&c.description));
            proof {
                assert(all.take(i + 1).drop_last() =~= all.take(i as int));
                assert(all.take(i + 1).last() == c@);
            }
            i = i + 1;
        }
        assert(all.take(i as int) =~= all);
        criteria
    }

    fn skim_body(&self) -> (r: Json)
        ensures
            r@ == skim_call(self.request@, described(self.candidates@), self.model@),
    {
        let mut questions: Table<Question> = Table::new();
        questions.insert(
            "which".to_string(),
            Question::Choice {
                instructions: Json::text(
                    "Which candidate best fits `request`? Judge each candidate by what its description says; pick the single best fit.",
                ),
                criteria: self.skim_table(),
            },
        );
        let state = Json::object().with("request", Json::text(&self.request));
        call_body(state, &questions, &self.model)
    }

    fn verify_body(&self, short: &Vec<CandidateSpec>) -> (r: Json)
        ensures
            r@ == verify_call(self.request@, described(short@), self.model@),
    {
        let ghost all = described(short@);
        let ghost entries = all.map_values(|c: CandidateView| shortlist_entry(c));
        let mut list = Json::array();
        let mut i: usize = 0;
        assert(entries.take(0) =~= Seq::empty());
        while i < short.len()
            invariant
                i <= short@.len(),
                all == described(short@),
                entries == all.map_values(|c: CandidateView| shortlist_entry(c)),
                list@ is Array,
                list@->Array_0 == entries.take(i as int),
            decreases short.len() - i,
        {
            let c = &short[i];
            list = list.followed_by(
                Json::object().with("id", Json::text(&c.id)).with("text", fuller_json(c)),
            );
            assert(entries.take(i + 1) =~= entries.take(i as int).push(entries[i as int]));
            i = i + 1;
        }
        assert(entries.take(i as int) =~= entries);
        let mut questions: Table<Question> = Table::new();
        questions.insert(
            "which".to_string(),
            Question::Choice {
                instructions: Json::text(
                    "Exactly one of these candidates is the best fit for `request`. Which one? Judge what each candidate actually is or does, not just its name.",
                ),
                criteria: verify_table(short),
            },
        );
        let mut k: usize = 0;
        while k < short.len()
            invariant
                k <= short@.len(),
                all == described(short@),
                questions@ == verify_questions(all, k as nat),
            decreases short.len() - k,
        {
            let id = &short[k].id;
            let criterion = join5(
                "Does `shortlist[",
                &decimal_text(k as u64),
                "]` (candidate '",
                id,
                "') do the specific thing that `request` asks for, well enough to be chosen?",
            );
            questions.insert(
                join2("fits_", id),
                noul_qv(
                    Json::object().with("criterion", Json::Text(criterion)).with(
                        "focus",
                        Json::text("Judge the capability actually described, not the name."),
                    ),
                ),
            );
            assert(all[k as int].id == id@);
            k = k + 1;
        }
        let state = Json::object().with("request", Json::text(&self.request)).with(
            "shortlist",
            list,
        );
        call_body(state, &questions, &self.model)
    }

    /// The body of the next call: the skim while the shortlist is not settled, then the
    /// closer look.
    pub fn next_call(&self) -> (r: Option<Json>)
        requires
            self.wf(),
        ensures
            match r {
                Some(body) => self.verdict is None && body@ == (if self.shortlist is None {
                    skim_call(self.request@, described(self.candidates@), self.model@)
                } else {
                    verify_call(self.request@, self.short(), self.model@)
                }),
                None => self.verdict is Some,
            },
    {
        if self.verdict.is_some() {
            return None;
        }
        match &self.shortlist {
            None => Some(self.skim_body()),
            Some(shortlist) => Some(self.verify_body(&self.shortlisted(shortlist))),
        }
    }

    /// The shortlist that the probabilities of a skim settle.
    fn settle(&self, probabilities: &Table<Real>) -> (r: Vec<String>)
        requires
            walks(probabilities),
        ensures
            texts(r@) == shortlist_of(probabilities@, self.shortlist_size as int),
            r@.len() <= self.shortlist_size,
            texts(r@).no_duplicates(),
            forall|i: int|
                0 <= i < r@.len() ==> probabilities@.contains_key(#[trigger] texts(r@)[i]),
    {
        let ghost keys = probabilities.keys();
        let ghost values = values_at(probabilities@, keys);
        proof {
            lemma_walk_in_order(probabilities);
        }
        let n = probabilities.len();
        let mut reals: Vec<Real> = Vec::new();
        let mut i: usize = 0;
        while i < n
            invariant
                i <= n,
                n == keys.len(),
                keys == probabilities.keys(),
                walks(probabilities),
                values == values_at(probabilities@, keys),
                reals@ == values.take(i as int),
            decreases n - i,
        {
            reals.push(*probabilities.value_at(i));
            assert(probabilities@[keys[i as int]] == probabilities.values()[i as int]@);
            assert(values.take(i + 1) =~= values.take(i as int).push(values[i as int]));
            i = i + 1;
        }
        assert(values.take(i as int) =~= values);
        let order = rank_places(&reals);
        let ghost settled = shortlist_of(probabilities@, self.shortlist_size as int);
        let mut list: Vec<String> = Vec::new();
        let mut k: usize = 0;
        while k < order.len() && k < self.shortlist_size
            invariant
                k <= order@.len(),
                k <= self.shortlist_size,
                keys == probabilities.keys(),
                order@.len() == keys.len(),
                keys.len() == values.len(),
                best_first(values, order@),
                order@ == places_best_first(values),
                keys == in_order(probabilities@.dom()),
                values == values_at(probabilities@, keys),
                settled == shortlist_of(probabilities@, self.shortlist_size as int),
                list@.len() == k,
                texts(list@) == settled.take(k as int),
            decreases order.len() - k,
        {
            let ghost was = list@;
            list.push(probabilities.key_at(order[k]).clone());
            assert(texts(list@) =~= texts(was).push(keys[order@[k as int] as int]));
            assert(settled.take(k + 1) =~= settled.take(k as int).push(settled[k as int]));
            k = k + 1;
        }
        assert(settled.take(k as int) =~= settled);
        proof {
            law_shortlist_is_most_probable(probabilities@, self.shortlist_size as int);
        }
        list
    }

    /// Reads the response to the closer look.
    fn judge(&self, body: &Json, short: &Vec<CandidateSpec>) -> (r: Result<Verdict, ToolError>)
        ensures
            match r {
                Ok(v) => verdict_in(body@, described(short@)) == Ok::<VerdictView, Fault>(v@)
                    && v.fits@.len() == short@.len() && ids(described(short@)).contains(v.choice@),
                Err(e) => verdict_in(body@, described(short@)) == Err::<VerdictView, Fault>(e@),
            },
    {
        let ghost all = described(short@);
        let options = verify_table(short);
        let choice = match answer_choice_among(body, "which", &options) {
            Ok(choice) => choice,
            Err(e) => {
                return Err(e);
            },
        };
        let confidence = match answer_confidence(body, "which") {
            Ok(confidence) => confidence,
            Err(e) => {
                return Err(e);
            },
        };
        let probabilities = match answer_probabilities_among(body, "which", &options) {
            Ok(probabilities) => probabilities,
            Err(e) => {
                return Err(e);
            },
        };
        let mut fits: Vec<Real> = Vec::new();
        let mut i: usize = 0;
        while i < short.len()
            invariant
                i <= short@.len(),
                all == described(short@),
                fits@.len() == i,
                options@ == verify_criteria(all),
                choice_among(body@, "which"@, options@.dom()) == Ok::<Seq<char>, Fault>(choice@),
                confidence_in(body@, "which"@) == Ok::<Real, Fault>(confidence),
                probabilities_among(body@, "which"@, options@.dom()) == Ok::<
                    Map<Seq<char>, Real>,
                    Fault,
                >(probabilities@),
                read_each(body@, i as nat, fit_reading(all)) == Ok::<Seq<Real>, Fault>(fits@),
            decreases short.len() - i,
        {
            assert(all[i as int].id == short@[i as int].id@);
            match answer_noul(body, &join2("fits_", &short[i].id)) {
                Ok(p) => {
                    fits.push(p);
                },
                Err(e) => {
                    proof {
                        lemma_read_stops(
                            body@,
                            (i + 1) as nat,
                            all.len(),
                            fit_reading(all),
                        );
                    }
                    return Err(e);
                },
            }
            i = i + 1;
        }
        proof {
            lemma_criteria_keys(all, choice@);
        }
        Ok(Verdict { choice, confidence, probabilities, fits })
    }

    /// Takes in the response to the call that `next_call` gave.
    pub fn accept(&mut self, body: &Json) -> (r: Result<(), ToolError>)
        requires
            old(self).wf(),
            old(self).verdict is None,
        ensures
            final(self).wf(),
            final(self).request == old(self).request,
            final(self).candidates == old(self).candidates,
            final(self).shortlist_size == old(self).shortlist_size,
            final(self).min_fit == old(self).min_fit,
            final(self).model == old(self).model,
            old(self).shortlist is None ==> match r {
                Ok(_) => final(self).verdict is None && final(self).shortlist is Some
                    && shortlist_in(
                    body@,
                    described(old(self).candidates@),
                    old(self).shortlist_size as int,
                ) == Ok::<
                    Seq<Seq<char>>,
                    Fault,
                >(texts(final(self).shortlist->0@)) && final(self).skimmed is Some
                    && probabilities_among(
                    body@,
                    "which"@,
                    skim_criteria(described(old(self).candidates@)).dom(),
                ) == Ok::<Map<Seq<char>, Real>, Fault>(final(self).skimmed->0@),
                Err(e) => shortlist_in(
                    body@,
                    described(old(self).candidates@),
                    old(self).shortlist_size as int,
                ) == Err::<
                    Seq<Seq<char>>,
                    Fault,
                >(e@) && *final(self) == *old(self),
            },
            old(self).shortlist is Some ==> match r {
                Ok(_) => final(self).shortlist == old(self).shortlist && final(self).skimmed
                    == old(self).skimmed && final(self).verdict is Some
                    && verdict_in(body@, old(self).short()) == Ok::<VerdictView, Fault>(
                    final(self).verdict->0@,
                ),
                Err(e) => verdict_in(body@, old(self).short()) == Err::<VerdictView, Fault>(e@)
                    && *final(self) == *old(self),
            },
    {
        match &self.shortlist {
            None => match answer_probabilities_among(body, "which", &self.skim_table()) {
                Ok(probabilities) => {
                    let list = self.settle(&probabilities);
                    proof {
                        let all = described(self.candidates@);
                        assert forall|i: int| 0 <= i < texts(list@).len() implies ids(all).contains(
                            #[trigger] texts(list@)[i],
                        ) by {
                            assert(probabilities@.contains_key(texts(list@)[i]));
                            lemma_criteria_keys(all, texts(list@)[i]);
                        }
                    }
                    self.shortlist = Some(list);
                    self.skimmed = Some(probabilities);
                    Ok(())
                },
                Err(e) => Err(e),
            },
            Some(shortlist) => match self.judge(body, &self.shortlisted(shortlist)) {
                Ok(verdict) => {
                    self.verdict = Some(verdict);
                    Ok(())
                },
                Err(e) => Err(e),
            },
        }
    }

    /// Whether no candidate fits well enough.
    fn rejected(&self, fits: &Vec<Real>) -> (r: bool)
        ensures
            r == rejects(fits@, self.min_fit),
    {
        let zero = Real { bits: ZERO };
        if !zero.lt(self.min_fit) {
            return false;
        }
        let mut i: usize = 0;
        while i < fits.len()
            invariant
                i <= fits@.len(),
                forall|k: int| 0 <= k < i ==> !(#[trigger] fits@[k]).spec_ge(self.min_fit),
            decreases fits.len() - i,
        {
            if fits[i].ge(self.min_fit) {
                return false;
            }
            i = i + 1;
        }
        true
    }

    /// The report on the choice.
    pub fn report(&self) -> (r: Option<Json>)
        requires
            self.wf(),
        ensures
            match r {
                Some(report) => self.verdict is Some && report@ == choose_report(
                    described(self.candidates@),
                    texts(self.shortlist->0@),
                    skim_view(self.skimmed),
                    self.verdict->0@,
                    self.min_fit,
                    self.spec_passes(),
                ),
                None => self.verdict is None,
            },
            self.verdict matches Some(v) ==> ids(described(self.candidates@)).contains(v.choice@),
            self.verdict is Some ==> ids(self.short()) == texts(self.shortlist->0@),
    {
        proof {
            if self.verdict is Some {
                law_named_in_full(described(self.candidates@), texts(self.shortlist->0@));
            }
        }
        match (&self.shortlist, &self.verdict) {
            (Some(shortlist), Some(verdict)) => {
                let rejected = self.rejected(&verdict.fits);
                let short = self.shortlisted(shortlist);
                let ghost all = described(short@);
                let mut fits = Json::object();
                let mut i: usize = 0;
                while i < short.len()
                    invariant
                        i <= short@.len(),
                        all == described(short@),
                        verdict.fits@.len() == short@.len(),
                        fits@ is Object,
                        fits@->Object_0 == fits_map(all, verdict.fits@, i as nat),
                    decreases short.len() - i,
                {
                    fits = fits.with(&short[i].id, Json::number(verdict.fits[i]));
                    assert(all[i as int].id == short@[i as int].id@);
                    i = i + 1;
                }
                let choice = if rejected {
                    Json::Null
                } else {
                    Json::text(&verdict.choice)
                };
                let passes: usize = if self.candidates.len() > self.shortlist_size {
                    2
                } else {
                    1
                };
                let plain = Json::object().with("choice", choice).with(
                    "rejected",
                    Json::Bool(rejected),
                ).with("confidence", Json::number(verdict.confidence)).with(
                    "selection_probabilities",
                    reals_by_key(&verdict.probabilities),
                ).with("shortlist", texts_json(shortlist)).with("fits", fits).with(
                    "passes",
                    Json::count(passes),
                );
                match &self.skimmed {
                    Some(p) => Some(plain.with("skim_probabilities", reals_by_key(p))),
                    None => Some(plain),
                }
            },
            _ => None,
        }
    }
}

/// What the questions go by has a key for each candidate and no other.
proof fn lemma_criteria_keys(candidates: Seq<CandidateView>, id: Seq<char>)
    ensures
        skim_criteria(candidates).contains_key(id) <==> ids(candidates).contains(id),
        verify_criteria(candidates).contains_key(id) <==> ids(candidates).contains(id),
    decreases candidates.len(),
{
    let all = ids(candidates);
    if candidates.len() > 0 {
        let fewer = candidates.drop_last();
        lemma_criteria_keys(fewer, id);
        if id == candidates.last().id {
            assert(all[candidates.len() - 1] == id);
        }
        if ids(fewer).contains(id) {
            let k = ids(fewer).index_of(id);
            assert(all[k] == id);
        }
        if all.contains(id) && id != candidates.last().id {
            let k = all.index_of(id);
            assert(ids(fewer)[k] == id);
        }
    }
}

/// A shortlist of ids of candidates names a candidate for each of its ids, in its order.
pub proof fn law_named_in_full(candidates: Seq<CandidateView>, shortlist: Seq<Seq<char>>)
    requires
        all_named(candidates, shortlist),
    ensures
        ids(named(candidates, shortlist)) == shortlist,
    decreases shortlist.len(),
{
    if shortlist.len() == 0 {
        assert(ids(named(candidates, shortlist)) =~= shortlist);
    } else {
        let fewer = shortlist.drop_last();
        assert forall|i: int| 0 <= i < fewer.len() implies ids(candidates).contains(
            #[trigger] fewer[i],
        ) by {
            assert(ids(candidates).contains(shortlist[i]));
        }
        law_named_in_full(candidates, fewer);
        let id = shortlist.last();
        assert(ids(candidates).contains(shortlist[shortlist.len() - 1]));
        let k = ids(candidates).index_of(id);
        assert(candidates[k].id == id);
        lemma_named_found(candidates, id, k, 0);
        lemma_named_has_id(candidates, id, 0);
        assert(ids(named(candidates, shortlist)) =~= ids(named(candidates, fewer)).push(id));
        assert(shortlist =~= fewer.push(id));
    }
}

proof fn lemma_named_found(candidates: Seq<CandidateView>, id: Seq<char>, k: int, i: int)
    requires
        0 <= i <= k < candidates.len(),
        candidates[k].id == id,
    ensures
        named_from(candidates, id, i) is Some,
    decreases k - i,
{
    if i < k && candidates[i].id != id {
        lemma_named_found(candidates, id, k, i + 1);
    }
}

/// A skim puts none on the shortlist but candidates, and each at most once.
pub proof fn law_shortlist_holds_candidates(
    body: Tree,
    candidates: Seq<CandidateView>,
    probabilities: Map<Seq<char>, Real>,
    size: int,
)
    requires
        probabilities_among(body, "which"@, skim_criteria(candidates).dom()) == Ok::<
            Map<Seq<char>, Real>,
            Fault,
        >(probabilities),
        probabilities.dom().finite(),
        probabilities.len() <= usize::MAX,
        size >= 0,
    ensures
        shortlist_in(body, candidates, size) is Ok,
        all_named(candidates, shortlist_in(body, candidates, size)->Ok_0),
        shortlist_in(body, candidates, size)->Ok_0.no_duplicates(),
{
    let list = shortlist_of(probabilities, size);
    law_shortlist_is_most_probable(probabilities, size);
    assert forall|i: int| 0 <= i < list.len() implies ids(candidates).contains(
        #[trigger] list[i],
    ) by {
        assert(probabilities.contains_key(list[i]));
        lemma_criteria_keys(candidates, list[i]);
    }
}

/// What is chosen is one of the caller's candidates: the report names one of them, or none.
pub proof fn law_choice_is_a_candidate(
    body: Tree,
    candidates: Seq<CandidateView>,
    shortlist: Seq<Seq<char>>,
    skimmed: Option<Map<Seq<char>, Real>>,
    min_fit: Real,
    passes: int,
)
    requires
        all_named(candidates, shortlist),
    ensures
        verdict_in(body, named(candidates, shortlist)) matches Ok(verdict) ==> {
            let choice = choose_report(
                candidates,
                shortlist,
                skimmed,
                verdict,
                min_fit,
                passes,
            )->Object_0["choice"@];
            &&& shortlist.contains(verdict.choice)
            &&& ids(candidates).contains(verdict.choice)
            &&& choice == Tree::Null || choice == Tree::Text(verdict.choice)
        },
{
    let short = named(candidates, shortlist);
    if verdict_in(body, short) is Ok {
        let verdict = verdict_in(body, short)->Ok_0;
        lemma_criteria_keys(short, verdict.choice);
        law_named_in_full(candidates, shortlist);
        let k = shortlist.index_of(verdict.choice);
        assert(ids(candidates).contains(shortlist[k]));
        law_rejected_without_choice(candidates, shortlist, skimmed, verdict, min_fit, passes);
    }
}

/// A choice is withheld exactly where every candidate of the shortlist fits too badly: the
/// report then says `rejected` and names no choice, and else names what was chosen. Either
/// way the fits and the probabilities are reported.
pub proof fn law_rejected_without_choice(
    candidates: Seq<CandidateView>,
    shortlist: Seq<Seq<char>>,
    skimmed: Option<Map<Seq<char>, Real>>,
    verdict: VerdictView,
    min_fit: Real,
    passes: int,
)
    ensures
        ({
            let fields = choose_report(
                candidates,
                shortlist,
                skimmed,
                verdict,
                min_fit,
                passes,
            )->Object_0;
            let short = named(candidates, shortlist);
            &&& fields["rejected"@] == Tree::Bool(rejects(verdict.fits, min_fit))
            &&& fields["choice"@] == Tree::Null <==> rejects(verdict.fits, min_fit)
            &&& fields["choice"@] != Tree::Null ==> fields["choice"@] == Tree::Text(verdict.choice)
            &&& fields["fits"@] == Tree::Object(fits_map(short, verdict.fits, short.len()))
            &&& fields["selection_probabilities"@] == Tree::Object(
                verdict.probabilities.map_values(|p: Real| real_tree(p)),
            )
            &&& skimmed is Some <==> fields.contains_key("skim_probabilities"@)
            &&& skimmed matches Some(p) ==> fields["skim_probabilities"@] == Tree::Object(
                p.map_values(|p: Real| real_tree(p)),
            )
        }),
{
    reveal_strlit("skim_probabilities");
    assert("skim_probabilities"@.len() == 18);
    reveal_strlit("choice");
    reveal_strlit("rejected");
    reveal_strlit("confidence");
    reveal_strlit("selection_probabilities");
    reveal_strlit("shortlist");
    reveal_strlit("fits");
    reveal_strlit("passes");
    assert("fits"@.len() == 4);
    assert("choice"@.len() == 6 && "passes"@.len() == 6 && "choice"@[0] != "passes"@[0]);
    assert("rejected"@.len() == 8);
    assert("confidence"@.len() == 10);
    assert("shortlist"@.len() == 9);
    assert("selection_probabilities"@.len() == 23);
}

/// The probabilities of both passes and the fits are reported, whatever was made of them:
/// reports that are the same come from the same.
pub proof fn law_probabilities_survive_the_choice(
    candidates: Seq<CandidateView>,
    shortlist: Seq<Seq<char>>,
    skimmed_a: Option<Map<Seq<char>, Real>>,
    skimmed_b: Option<Map<Seq<char>, Real>>,
    verdict_a: VerdictView,
    verdict_b: VerdictView,
    min_fit_a: Real,
    min_fit_b: Real,
    passes: int,
)
    requires
        ids(named(candidates, shortlist)).no_duplicates(),
        choose_report(candidates, shortlist, skimmed_a, verdict_a, min_fit_a, passes)
            == choose_report(candidates, shortlist, skimmed_b, verdict_b, min_fit_b, passes),
    ensures
        skimmed_a is Some <==> skimmed_b is Some,
        skimmed_a is Some ==> skimmed_a->0.map_values(|p: Real| real_tree(p))
            == skimmed_b->0.map_values(|p: Real| real_tree(p)),
        verdict_a.probabilities.map_values(|p: Real| real_tree(p))
            == verdict_b.probabilities.map_values(|p: Real| real_tree(p)),
        forall|i: int|
            0 <= i < named(candidates, shortlist).len() ==> real_tree(
                #[trigger] verdict_a.fits[i],
            ) == real_tree(#[trigger] verdict_b.fits[i]),
{
    let short = named(candidates, shortlist);
    law_rejected_without_choice(candidates, shortlist, skimmed_a, verdict_a, min_fit_a, passes);
    law_rejected_without_choice(candidates, shortlist, skimmed_b, verdict_b, min_fit_b, passes);
    law_fits_are_reported_by_id(short, verdict_a.fits, short.len());
    law_fits_are_reported_by_id(short, verdict_b.fits, short.len());
    assert forall|i: int| 0 <= i < short.len() implies real_tree(#[trigger] verdict_a.fits[i])
        == real_tree(#[trigger] verdict_b.fits[i]) by {
        assert(fits_map(short, verdict_a.fits, short.len())[short[i].id] == real_tree(
            verdict_a.fits[i],
        ));
        assert(fits_map(short, verdict_b.fits, short.len())[short[i].id] == real_tree(
            verdict_b.fits[i],
        ));
    }
}

/// Raising `min_fit` turns a choice into a rejection at most, and never the other way.
pub proof fn law_higher_bar_rejects_more(fits: Seq<Real>, low: Real, high: Real)
    requires
        rejects(fits, low),
        low.spec_lt(high),
    ensures
        rejects(fits, high),
{
    assert forall|i: int| 0 <= i < fits.len() implies !(#[trigger] fits[i]).spec_ge(high) by {
        assert(!fits[i].spec_ge(low));
    }
}

/// The shortlist holds as many ids as it may, each once, and no id off it is more probable
/// than one on it.
pub proof fn law_shortlist_is_most_probable(
    probabilities: Map<Seq<char>, Real>,
    size: int,
)
    requires
        probabilities.dom().finite(),
        probabilities.len() <= usize::MAX,
        size >= 0,
    ensures
        shortlist_of(probabilities, size).len() == (if size < probabilities.len() {
            size
        } else {
            probabilities.len() as int
        }),
        shortlist_of(probabilities, size).no_duplicates(),
        forall|i: int|
            0 <= i < shortlist_of(probabilities, size).len() ==> probabilities.contains_key(
                #[trigger] shortlist_of(probabilities, size)[i],
            ),
        forall|i: int, id: Seq<char>|
            0 <= i < shortlist_of(probabilities, size).len() && probabilities.contains_key(id)
                && !shortlist_of(probabilities, size).contains(id)
                ==> probabilities[#[trigger] shortlist_of(probabilities, size)[i]].rank()
                >= (#[trigger] probabilities[id]).rank(),
{
    let keys = in_order(probabilities.dom());
    let values = values_at(probabilities, keys);
    let list = shortlist_of(probabilities, size);
    lemma_in_order(probabilities.dom());
    lemma_ascending_distinct(keys);
    keys.unique_seq_to_set();
    law_best_first_order_exists(values);
    let order = places_best_first(values);
    assert forall|i: int, j: int|
        0 <= i < list.len() && 0 <= j < list.len() && i != j implies list[i] != list[j] by {
        if i < j {
            assert(precedes(values, order[i] as int, order[j] as int));
        } else {
            assert(precedes(values, order[j] as int, order[i] as int));
        }
        assert(order[i] != order[j]);
    }
    assert forall|i: int| 0 <= i < list.len() implies probabilities.contains_key(
        #[trigger] list[i],
    ) by {
        assert(keys.to_set().contains(keys[order[i] as int]));
    }
    assert forall|i: int, id: Seq<char>|
        0 <= i < list.len() && probabilities.contains_key(id) && !list.contains(
            id,
        ) implies probabilities[#[trigger] list[i]].rank() >= (#[trigger] probabilities[id]).rank() by {
        assert(keys.to_set().contains(id));
        let p = keys.index_of(id);
        assert(keys[p] == id);
        assert(order.contains(p as usize));
        let a = order.index_of(p as usize);
        if a < list.len() {
            assert(list[a] == id);
        } else {
            assert(precedes(values, order[i] as int, order[a] as int));
        }
    }
}

/// Where no skim is needed, the shortlist names all candidates, in the caller's order.
pub proof fn law_short_lists_are_kept_whole(candidates: Seq<CandidateView>)
    requires
        ids(candidates).no_duplicates(),
    ensures
        named(candidates, ids(candidates)) == candidates,
{
    lemma_named_prefix(candidates, candidates.len() as int);
    assert(ids(candidates).take(candidates.len() as int) =~= ids(candidates));
    assert(candidates.take(candidates.len() as int) =~= candidates);
}

proof fn lemma_named_prefix(candidates: Seq<CandidateView>, n: int)
    requires
        ids(candidates).no_duplicates(),
        0 <= n <= candidates.len(),
    ensures
        named(candidates, ids(candidates).take(n)) == candidates.take(n),
    decreases n,
{
    let all = ids(candidates);
    if n == 0 {
        assert(candidates.take(0) =~= Seq::empty());
    } else {
        lemma_named_prefix(candidates, n - 1);
        assert(all.take(n).drop_last() =~= all.take(n - 1));
        assert(all.take(n).last() == all[n - 1]);
        lemma_named_at(candidates, n - 1, 0);
        assert(candidates.take(n) =~= candidates.take(n - 1).push(candidates[n - 1]));
    }
}

proof fn lemma_named_at(candidates: Seq<CandidateView>, k: int, i: int)
    requires
        ids(candidates).no_duplicates(),
        0 <= i <= k < candidates.len(),
    ensures
        named_from(candidates, candidates[k].id, i) == Some(candidates[k]),
    decreases k - i,
{
    if i < k {
        assert(ids(candidates)[i] != ids(candidates)[k]);
        lemma_named_at(candidates, k, i + 1);
    }
}

/// The closer look asks which candidate is best and, of each candidate of the shortlist,
/// whether it fits; and nothing else.
pub proof fn law_each_shortlisted_is_asked(short: Seq<CandidateView>, n: nat)
    requires
        ids(short).no_duplicates(),
        n <= short.len(),
    ensures
        forall|i: int|
            0 <= i < n ==> verify_questions(short, n).contains_key(
                fit_id((#[trigger] short[i]).id),
            ) && verify_questions(short, n)[fit_id(short[i].id)] == fit_question(
                i as nat,
                short[i].id,
            ),
        verify_questions(short, n).contains_key("which"@),
        verify_questions(short, n)["which"@] == verify_questions(short, 0)["which"@],
        verify_questions(short, n).dom().finite(),
        verify_questions(short, n).len() == n + 1,
        forall|id: Seq<char>| #[trigger]
            verify_questions(short, n).contains_key(id) ==> id == "which"@ || exists|i: int|
                0 <= i < n && id == fit_id((#[trigger] short[i]).id),
    decreases n,
{
    if n > 0 {
        let m = (n - 1) as nat;
        let was = verify_questions(short, m);
        let id = fit_id(short[m as int].id);
        law_each_shortlisted_is_asked(short, m);
        reveal_strlit("fits_");
        reveal_strlit("which");
        assert(id[0] == 'f');
        assert("which"@[0] == 'w');
        assert forall|i: int| 0 <= i < m implies fit_id((#[trigger] short[i]).id) != id by {
            assert(ids(short)[i] != ids(short)[m as int]);
            assert(fit_id(short[i].id).skip(5) =~= short[i].id);
            assert(id.skip(5) =~= short[m as int].id);
        }
        assert(!was.contains_key(id)) by {
            if was.contains_key(id) {
                let i = choose|i: int| 0 <= i < m && id == fit_id((#[trigger] short[i]).id);
                assert(fit_id(short[i].id) != id);
            }
        }
        assert forall|other: Seq<char>| #[trigger]
            verify_questions(short, n).contains_key(other) implies other == "which"@ || exists|
            i: int,
        | 0 <= i < n && other == fit_id((#[trigger] short[i]).id) by {
            if other == id {
                assert(other == fit_id(short[m as int].id));
            } else if other != "which"@ {
                assert(was.contains_key(other));
                let i = choose|i: int| 0 <= i < m && other == fit_id((#[trigger] short[i]).id);
                assert(0 <= i < n && other == fit_id(short[i].id));
            }
        }
    }
}

/// The fit that was answered for a candidate of the shortlist is the one reported for it.
pub proof fn law_fits_are_reported_by_id(short: Seq<CandidateView>, fits: Seq<Real>, n: nat)
    requires
        ids(short).no_duplicates(),
        n <= short.len(),
    ensures
        forall|i: int|
            0 <= i < n ==> fits_map(short, fits, n).contains_key((#[trigger] short[i]).id)
                && fits_map(short, fits, n)[short[i].id] == real_tree(fits[i]),
    decreases n,
{
    if n > 0 {
        let m = (n - 1) as nat;
        law_fits_are_reported_by_id(short, fits, m);
        assert forall|i: int| 0 <= i < n implies fits_map(short, fits, n).contains_key(
            (#[trigger] short[i]).id,
        ) && fits_map(short, fits, n)[short[i].id] == real_tree(fits[i]) by {
            if i < m {
                assert(ids(short)[i] != ids(short)[m as int]);
            }
        }
    }
}

/// The candidates that a list of different ids names have different ids.
pub proof fn law_named_candidates_differ(candidates: Seq<CandidateView>, list: Seq<Seq<char>>)
    requires
        list.no_duplicates(),
    ensures
        ids(named(candidates, list)).no_duplicates(),
        forall|i: int|
            0 <= i < named(candidates, list).len() ==> list.contains(
                (#[trigger] named(candidates, list)[i]).id,
            ),
    decreases list.len(),
{
    if list.len() > 0 {
        let fewer = list.drop_last();
        let was = named(candidates, fewer);
        let now = named(candidates, list);
        law_named_candidates_differ(candidates, fewer);
        lemma_named_has_id(candidates, list.last(), 0);
        assert forall|i: int| 0 <= i < was.len() implies (#[trigger] was[i]).id != list.last() by {
            let k = fewer.index_of(was[i].id);
            assert(list[k] == was[i].id);
        }
        assert forall|i: int| 0 <= i < now.len() implies list.contains((#[trigger] now[i]).id) by {
            if i < was.len() {
                assert(now[i] == was[i]);
                let k = fewer.index_of(was[i].id);
                assert(list[k] == now[i].id);
            } else {
                assert(list[list.len() - 1] == now[i].id);
            }
        }
        assert forall|i: int, j: int|
            0 <= i < now.len() && 0 <= j < now.len() && i != j implies ids(now)[i]
            != ids(now)[j] by {
            if i < was.len() && j < was.len() {
                assert(ids(was)[i] != ids(was)[j]);
            } else if i < was.len() {
                assert(was[i].id != list.last());
            } else {
                assert(was[j].id != list.last());
            }
        }
    }
}

proof fn lemma_named_has_id(candidates: Seq<CandidateView>, id: Seq<char>, i: int)
    requires
        0 <= i,
    ensures
        named_from(candidates, id, i) matches Some(c) ==> c.id == id,
    decreases candidates.len() - i,
{
    if i < candidates.len() {
        lemma_named_has_id(candidates, id, i + 1);
    }
}

/// A candidate is offered as the caller gives it: one that is only named has neither a
/// description nor details, and of one that is spelled out nothing is lost.
pub proof fn law_candidates_are_offered_as_given(candidates: Seq<Candidate>)
    ensures
        offered(candidates).len() == candidates.len(),
        forall|i: int|
            0 <= i < candidates.len() ==> {
                let c = #[trigger] offered(candidates)[i];
                &&& candidates[i] matches Candidate::Plain(id) ==> c.id == id@ && c.description
                    is None && c.details is None
                &&& candidates[i] matches Candidate::Detailed(spec) ==> {
                    &&& c.id == spec.id@
                    &&& c.description is Some <==> spec.description is Some
                    &&& spec.description matches Some(t) ==> c.description->0 == t@
                    &&& c.details is Some <==> spec.details is Some
                    &&& spec.details matches Some(t) ==> c.details->0 == t@
                }
            },
{
}

/// The skim goes by the descriptions: its criteria give each candidate, under its id, its
/// description as a text where it has one and null exactly where it has none; and there are
/// no other criteria.
pub proof fn law_skim_goes_by_descriptions(
    request: Seq<char>,
    candidates: Seq<Candidate>,
    model: Seq<char>,
)
    requires
        ids(offered(candidates)).no_duplicates(),
    ensures
        ({
            let call = skim_call(request, offered(candidates), model);
            let q = at(at(call, "questions"@), "which"@);
            let criteria = at(q, "criteria"@);
            &&& fields_are(at(call, "questions"@), set!["which"@])
            &&& fields_are(at(call, "state"@), set!["request"@])
            &&& holds(at(call, "state"@), "request"@, Tree::Text(request))
            &&& holds(call, "model"@, Tree::Text(model))
            &&& fields_are(q, set!["type"@, "instructions"@, "criteria"@])
            &&& holds(q, "type"@, Tree::Text("choice"@))
            &&& holds(
                q,
                "instructions"@,
                Tree::Text(
                    "Which candidate best fits `request`? Judge each candidate by what its description says; pick the single best fit."@,
                ),
            )
            &&& criteria is Object
            &&& forall|i: int|
                0 <= i < candidates.len() ==> match #[trigger] candidates[i] {
                    Candidate::Plain(id) => holds(criteria, id@, Tree::Null),
                    Candidate::Detailed(CandidateSpec { id, description: Some(text), .. }) => holds(
                        criteria,
                        id@,
                        Tree::Text(text@),
                    ),
                    Candidate::Detailed(CandidateSpec { id, description: None, .. }) => holds(
                        criteria,
                        id@,
                        Tree::Null,
                    ),
                }
            &&& forall|id: Seq<char>| #[trigger]
                has_field(criteria, id) ==> exists|i: int|
                    0 <= i < candidates.len() && match #[trigger] candidates[i] {
                        Candidate::Plain(name) => name@,
                        Candidate::Detailed(spec) => spec.id@,
                    } == id
        }),
{
    let views = offered(candidates);
    let call = skim_call(request, views, model);
    law_calls_hold_what_they_ask(
        Tree::Object(map!["request"@ => Tree::Text(request)]),
        skim_questions(views),
        model,
    );
    assert(skim_questions(views).dom() =~= set!["which"@]);
    assert(skim_questions(views).contains_key("which"@));
    let view = skim_questions(views)["which"@];
    law_choices_are_sent(view->Choice_instructions, view->Choice_criteria);
    assert(at(call, "state"@)->Object_0.dom() =~= set!["request"@]);
    lemma_criteria_by_id(views);
    let criteria = at(at(at(call, "questions"@), "which"@), "criteria"@);
    assert(criteria == Tree::Object(skim_criteria(views)));
    assert forall|i: int| 0 <= i < candidates.len() implies match #[trigger] candidates[i] {
        Candidate::Plain(id) => holds(criteria, id@, Tree::Null),
        Candidate::Detailed(CandidateSpec { id, description: Some(text), .. }) => holds(
            criteria,
            id@,
            Tree::Text(text@),
        ),
        Candidate::Detailed(CandidateSpec { id, description: None, .. }) => holds(
            criteria,
            id@,
            Tree::Null,
        ),
    } by {
        assert(views[i] == candidates[i]@);
    }
    assert forall|id: Seq<char>| #[trigger] has_field(criteria, id) implies exists|i: int|
        0 <= i < candidates.len() && match #[trigger] candidates[i] {
            Candidate::Plain(name) => name@,
            Candidate::Detailed(spec) => spec.id@,
        } == id by {
        lemma_criteria_keys(views, id);
        let i = choose|i: int| 0 <= i < ids(views).len() && ids(views)[i] == id;
        assert(views[i] == candidates[i]@);
        assert(views[i].id == id);
    }
}

proof fn lemma_criteria_by_id(candidates: Seq<CandidateView>)
    requires
        ids(candidates).no_duplicates(),
    ensures
        forall|i: int|
            0 <= i < candidates.len() ==> {
                let c = #[trigger] candidates[i];
                &&& skim_criteria(candidates).contains_key(c.id)
                &&& skim_criteria(candidates)[c.id] == text_or_null(c.description)
                &&& verify_criteria(candidates).contains_key(c.id)
                &&& verify_criteria(candidates)[c.id] == fuller_text(c)
            },
    decreases candidates.len(),
{
    if candidates.len() > 0 {
        let rest = candidates.drop_last();
        let all = ids(candidates);
        assert(ids(rest) =~= all.drop_last());
        assert forall|i: int, j: int| 0 <= i < ids(rest).len() && 0 <= j < ids(rest).len() && i
            != j implies ids(rest)[i] != ids(rest)[j] by {
            assert(all[i] != all[j]);
        }
        lemma_criteria_by_id(rest);
        assert forall|i: int| 0 <= i < candidates.len() implies {
            let c = #[trigger] candidates[i];
            &&& skim_criteria(candidates).contains_key(c.id)
            &&& skim_criteria(candidates)[c.id] == text_or_null(c.description)
            &&& verify_criteria(candidates).contains_key(c.id)
            &&& verify_criteria(candidates)[c.id] == fuller_text(c)
        } by {
            if i < rest.len() {
                assert(rest[i] == candidates[i]);
                assert(all[i] != all[candidates.len() - 1]);
            }
        }
    }
}

/// The closer look goes by the details, where a candidate has none by its description, and
/// where it has neither by null: so the shortlist stands in the state, in its order, and so
/// the criteria of the choice.
pub proof fn law_closer_look_goes_by_details(
    request: Seq<char>,
    short: Seq<CandidateSpec>,
    model: Seq<char>,
    i: int,
)
    requires
        ids(described(short)).no_duplicates(),
        0 <= i < short.len(),
    ensures
        ({
            let call = verify_call(request, described(short), model);
            let state = at(call, "state"@);
            let listed = at(state, "shortlist"@)->Array_0;
            let q = at(at(call, "questions"@), "which"@);
            let criteria = at(q, "criteria"@);
            let text = if short[i].details is Some {
                Tree::Text(short[i].details->0@)
            } else if short[i].description is Some {
                Tree::Text(short[i].description->0@)
            } else {
                Tree::Null
            };
            &&& fields_are(state, set!["request"@, "shortlist"@])
            &&& holds(state, "request"@, Tree::Text(request))
            &&& holds(call, "model"@, Tree::Text(model))
            &&& at(state, "shortlist"@) is Array
            &&& listed.len() == short.len()
            &&& fields_are(listed[i], set!["id"@, "text"@])
            &&& holds(listed[i], "id"@, Tree::Text(short[i].id@))
            &&& holds(listed[i], "text"@, text)
            &&& fields_are(q, set!["type"@, "instructions"@, "criteria"@])
            &&& holds(q, "type"@, Tree::Text("choice"@))
            &&& holds(
                q,
                "instructions"@,
                Tree::Text(
                    "Exactly one of these candidates is the best fit for `request`. Which one? Judge what each candidate actually is or does, not just its name."@,
                ),
            )
            &&& holds(criteria, short[i].id@, text)
            &&& forall|id: Seq<char>| #[trigger]
                has_field(criteria, id) ==> exists|j: int|
                    0 <= j < short.len() && (#[trigger] short[j]).id@ == id
        }),
{
    reveal_strlit("request");
    reveal_strlit("shortlist");
    reveal_strlit("id");
    reveal_strlit("text");
    assert("request"@.len() == 7);
    assert("shortlist"@.len() == 9);
    assert("id"@.len() == 2);
    assert("text"@.len() == 4);
    let views = described(short);
    let call = verify_call(request, views, model);
    let questions = verify_questions(views, views.len());
    let sent = Tree::Object(
        map![
            "request"@ => Tree::Text(request),
            "shortlist"@ => Tree::Array(
                views.map_values(|c: CandidateView| shortlist_entry(c)),
            ),
        ],
    );
    law_calls_hold_what_they_ask(sent, questions, model);
    assert(at(call, "state"@) == sent);
    assert(sent->Object_0.dom() =~= set!["request"@, "shortlist"@]);
    law_each_shortlisted_is_asked(views, views.len());
    let view = questions["which"@];
    assert(view == verify_questions(views, 0)["which"@]);
    law_choices_are_sent(view->Choice_instructions, view->Choice_criteria);
    lemma_criteria_by_id(views);
    assert(views[i] == short[i]@);
    let entry = at(sent, "shortlist"@)->Array_0[i];
    assert(entry == shortlist_entry(views[i]));
    assert(entry->Object_0.dom() =~= set!["id"@, "text"@]);
    let criteria = at(at(at(call, "questions"@), "which"@), "criteria"@);
    assert(criteria == Tree::Object(verify_criteria(views)));
    assert forall|id: Seq<char>| #[trigger] has_field(criteria, id) implies exists|j: int|
        0 <= j < short.len() && (#[trigger] short[j]).id@ == id by {
        lemma_criteria_keys(views, id);
        let j = choose|j: int| 0 <= j < ids(views).len() && ids(views)[j] == id;
        assert(views[j] == short[j]@);
        assert(short[j].id@ == id);
    }
}

/// Of each candidate in the shortlist it is asked once whether it fits: under its id, about
/// its own place in the list; and nothing else is asked but which of them is best.
pub proof fn law_each_shortlisted_is_asked_about(
    request: Seq<char>,
    short: Seq<CandidateSpec>,
    model: Seq<char>,
    i: int,
)
    requires
        ids(described(short)).no_duplicates(),
        0 <= i < short.len(),
    ensures
        ({
            let asked = at(verify_call(request, described(short), model), "questions"@);
            let q = at(asked, "fits_"@ + short[i].id@);
            let told = at(q, "instructions"@);
            &&& asked is Object
            &&& asked->Object_0.len() == short.len() + 1
            &&& has_field(asked, "which"@)
            &&& has_field(asked, "fits_"@ + short[i].id@)
            &&& fields_are(q, set!["type"@, "instructions"@])
            &&& holds(q, "type"@, Tree::Text("noul"@))
            &&& fields_are(told, set!["criterion"@, "focus"@])
            &&& holds(
                told,
                "criterion"@,
                Tree::Text(
                    "Does `shortlist["@ + decimal(i as nat) + "]` (candidate '"@ + short[i].id@
                        + "') do the specific thing that `request` asks for, well enough to be chosen?"@,
                ),
            )
            &&& holds(
                told,
                "focus"@,
                Tree::Text("Judge the capability actually described, not the name."@),
            )
        }),
{
    reveal_strlit("criterion");
    reveal_strlit("focus");
    assert("criterion"@.len() == 9);
    assert("focus"@.len() == 5);
    let views = described(short);
    let questions = verify_questions(views, views.len());
    law_calls_hold_what_they_ask(
        Tree::Object(
            map![
                "request"@ => Tree::Text(request),
                "shortlist"@ => Tree::Array(
                    views.map_values(|c: CandidateView| shortlist_entry(c)),
                ),
            ],
        ),
        questions,
        model,
    );
    law_each_shortlisted_is_asked(views, views.len());
    assert(views[i] == short[i]@);
    assert(views[i].id == short[i].id@);
    assert(fit_id(views[i].id) == "fits_"@ + short[i].id@);
    assert(questions.contains_key(fit_id(views[i].id)));
    let view = fit_question(i as nat, views[i].id);
    assert(questions["fits_"@ + short[i].id@] == view);
    law_yes_and_no_are_sent(view->Noul_instructions, view->Noul_criteria);
    assert(view->Noul_instructions->Object_0.dom() =~= set!["criterion"@, "focus"@]);
}

/// What a list of ids names are candidates that were offered, each the first that has the
/// id.
pub proof fn law_named_are_candidates(candidates: Seq<CandidateView>, list: Seq<Seq<char>>)
    requires
        all_named(candidates, list),
    ensures
        named(candidates, list).len() == list.len(),
        forall|i: int|
            0 <= i < list.len() ==> exists|k: int|
                0 <= k < candidates.len() && #[trigger] named(candidates, list)[i]
                    == #[trigger] candidates[k] && candidates[k].id == list[i] && (forall|j: int|
                    0 <= j < k ==> (#[trigger] candidates[j]).id != list[i]),
    decreases list.len(),
{
    if list.len() > 0 {
        let rest = list.drop_last();
        assert forall|i: int| 0 <= i < rest.len() implies ids(candidates).contains(
            #[trigger] rest[i],
        ) by {
            assert(rest[i] == list[i]);
        }
        law_named_are_candidates(candidates, rest);
        assert(ids(candidates).contains(list[list.len() - 1]));
        let id = list.last();
        let k = choose|k: int| 0 <= k < ids(candidates).len() && ids(candidates)[k] == id;
        assert(candidates[k].id == id);
        lemma_named_found(candidates, id, k, 0);
        lemma_named_first(candidates, id, 0);
        assert forall|i: int| 0 <= i < list.len() implies exists|k: int|
            0 <= k < candidates.len() && #[trigger] named(candidates, list)[i]
                == #[trigger] candidates[k] && candidates[k].id == list[i] && (forall|j: int|
                0 <= j < k ==> (#[trigger] candidates[j]).id != list[i]) by {
            if i < rest.len() {
                assert(named(candidates, list)[i] == named(candidates, rest)[i]);
                assert(rest[i] == list[i]);
            }
        }
    }
}

proof fn lemma_named_first(candidates: Seq<CandidateView>, id: Seq<char>, i: int)
    requires
        0 <= i <= candidates.len(),
        forall|j: int| 0 <= j < i ==> (#[trigger] candidates[j]).id != id,
    ensures
        named_from(candidates, id, i) matches Some(c) ==> exists|k: int|
            0 <= k < candidates.len() && c == #[trigger] candidates[k] && candidates[k].id == id
                && (forall|j: int| 0 <= j < k ==> (#[trigger] candidates[j]).id != id),
    decreases candidates.len() - i,
{
    if i < candidates.len() && candidates[i].id != id {
        lemma_named_first(candidates, id, i + 1);
    } else if i < candidates.len() {
        assert(candidates[i].id == id);
    }
}

/// The shortlist holds as many candidates as are asked for, but at least one and at most
/// ten, and three unless the caller says.
pub proof fn law_shortlist_sizes(asked: Option<usize>)
    ensures
        asked is None ==> spec_shortlist_size(asked) == 3,
        asked matches Some(n) ==> (n == 0 ==> spec_shortlist_size(asked) == 1) && (1 <= n <= 10
            ==> spec_shortlist_size(asked) == n) && (n > 10 ==> spec_shortlist_size(asked) == 10),
{
}

/// Candidates are refused exactly where there is none, where there are more than 255, or
/// where two have the same id; and the refusal names the first id that comes again.
pub proof fn law_candidates_within_limits(candidates: Seq<CandidateView>)
    ensures
        candidates_fault(candidates) is None <==> 1 <= candidates.len() <= 255 && (forall|
            i: int,
            j: int,
        |
            0 <= i < j < candidates.len() ==> (#[trigger] candidates[i]).id != (
            #[trigger] candidates[j]).id),
        candidates.len() == 0 ==> candidates_fault(candidates) == Some(
            "'candidates' must contain at least one candidate"@,
        ),
        candidates.len() > 255 ==> candidates_fault(candidates) == Some(
            "'candidates' has "@ + decimal(candidates.len())
                + " entries; the maximum is 255 (pre-filter with rank_items or a first Choice)"@,
        ),
        1 <= candidates.len() <= 255 && candidates_fault(candidates) is Some ==> exists|
            i: int,
            j: int,
        |
            0 <= i < j < candidates.len() && (#[trigger] candidates[i]).id == (
            #[trigger] candidates[j]).id && candidates_fault(candidates) == Some(
                "duplicate candidate id '"@ + candidates[i].id + "'"@,
            ) && ids(candidates).take(j).no_duplicates(),
{
    let all = ids(candidates);
    law_first_repeated(all);
    assert forall|i: int| 0 <= i < candidates.len() implies #[trigger] all[i]
        == candidates[i].id by {}
    if all.no_duplicates() {
        assert forall|i: int, j: int| 0 <= i < j < candidates.len() implies (
        #[trigger] candidates[i]).id != (#[trigger] candidates[j]).id by {
            assert(all[i] != all[j]);
        }
    } else {
        let (i, j) = choose|i: int, j: int|
            0 <= i < j < all.len() && #[trigger] all[i] == first_repeated(all, 0)->0
                && #[trigger] all[j] == first_repeated(all, 0)->0 && all.take(j).no_duplicates();
        assert(candidates[i].id == candidates[j].id);
    }
}

/// A choice is rejected exactly where a fit is demanded at all and no candidate of the
/// shortlist reaches it.
pub proof fn law_rejected_where_none_fits(fits: Seq<Real>, min_fit: Real)
    requires
        0 <= min_fit.rank() <= 0x3ff0_0000_0000_0000,
        forall|i: int| 0 <= i < fits.len() ==> (#[trigger] fits[i]).spec_is_finite(),
    ensures
        rejects(fits, min_fit) <==> min_fit.rank() > 0 && (forall|i: int|
            0 <= i < fits.len() ==> (#[trigger] fits[i]).rank() < min_fit.rank()),
        min_fit.rank() == 0 ==> !rejects(fits, min_fit),
{
    if rejects(fits, min_fit) {
        assert forall|i: int| 0 <= i < fits.len() implies (#[trigger] fits[i]).rank()
            < min_fit.rank() by {
            assert(!fits[i].spec_ge(min_fit));
        }
    }
}

/// The report gives the choice, or null where all are rejected, its confidence, the
/// probability of each of the shortlist, the shortlist in its order, how well each of it
/// fits, the number of calls, and what the skim found exactly where there was one.
pub proof fn law_choice_is_reported(
    candidates: Seq<CandidateView>,
    shortlist: Seq<Seq<char>>,
    skimmed: Option<Map<Seq<char>, Real>>,
    verdict: VerdictView,
    min_fit: Real,
    passes: int,
)
    requires
        all_named(candidates, shortlist),
        shortlist.no_duplicates(),
    ensures
        ({
            let report = choose_report(candidates, shortlist, skimmed, verdict, min_fit, passes);
            let listed = at(report, "shortlist"@)->Array_0;
            let chances = at(report, "selection_probabilities"@);
            let skim = at(report, "skim_probabilities"@);
            let fits = at(report, "fits"@);
            let plain = set![
                "choice"@,
                "rejected"@,
                "confidence"@,
                "selection_probabilities"@,
                "shortlist"@,
                "fits"@,
                "passes"@,
            ];
            &&& skimmed is None ==> fields_are(report, plain)
            &&& skimmed is Some ==> fields_are(report, plain.insert("skim_probabilities"@))
            &&& holds(report, "rejected"@, Tree::Bool(rejects(verdict.fits, min_fit)))
            &&& rejects(verdict.fits, min_fit) ==> holds(report, "choice"@, Tree::Null)
            &&& !rejects(verdict.fits, min_fit) ==> holds(
                report,
                "choice"@,
                Tree::Text(verdict.choice),
            )
            &&& holds(report, "confidence"@, real_tree(verdict.confidence))
            &&& holds(report, "passes"@, Tree::Integer(passes))
            &&& fields_are(chances, verdict.probabilities.dom())
            &&& forall|id: Seq<char>| #[trigger]
                verdict.probabilities.contains_key(id) ==> holds(
                    chances,
                    id,
                    real_tree(verdict.probabilities[id]),
                )
            &&& at(report, "shortlist"@) is Array
            &&& listed.len() == shortlist.len()
            &&& forall|i: int|
                0 <= i < shortlist.len() ==> #[trigger] listed[i] == Tree::Text(shortlist[i])
            &&& fits is Object
            &&& forall|i: int|
                0 <= i < shortlist.len() ==> holds(
                    fits,
                    #[trigger] shortlist[i],
                    real_tree(verdict.fits[i]),
                )
            &&& forall|id: Seq<char>| #[trigger] has_field(fits, id) ==> shortlist.contains(id)
            &&& skimmed matches Some(p) ==> fields_are(skim, p.dom()) && (forall|id: Seq<char>|
             #[trigger]
                p.contains_key(id) ==> holds(skim, id, real_tree(p[id])))
        }),
{
    reveal_strlit("choice");
    reveal_strlit("rejected");
    reveal_strlit("confidence");
    reveal_strlit("selection_probabilities");
    reveal_strlit("shortlist");
    reveal_strlit("fits");
    reveal_strlit("passes");
    reveal_strlit("skim_probabilities");
    assert("choice"@.len() == 6);
    assert("rejected"@.len() == 8);
    assert("confidence"@.len() == 10);
    assert("selection_probabilities"@.len() == 23);
    assert("shortlist"@.len() == 9);
    assert("fits"@.len() == 4);
    assert("passes"@.len() == 6);
    assert("skim_probabilities"@.len() == 18);
    assert("choice"@[0] != "passes"@[0]);
    let report = choose_report(candidates, shortlist, skimmed, verdict, min_fit, passes);
    let short = named(candidates, shortlist);
    let plain = set![
        "choice"@,
        "rejected"@,
        "confidence"@,
        "selection_probabilities"@,
        "shortlist"@,
        "fits"@,
        "passes"@,
    ];
    if skimmed is Some {
        assert(report->Object_0.dom() =~= plain.insert("skim_probabilities"@));
        assert(at(report, "skim_probabilities"@)->Object_0.dom() =~= skimmed->0.dom());
    } else {
        assert(report->Object_0.dom() =~= plain);
    }
    assert(at(report, "selection_probabilities"@)->Object_0.dom() =~= verdict.probabilities.dom());
    law_named_in_full(candidates, shortlist);
    assert(ids(short).no_duplicates());
    law_fits_are_reported_by_id(short, verdict.fits, short.len());
    lemma_fits_keys(short, verdict.fits, short.len());
    assert forall|i: int| 0 <= i < shortlist.len() implies holds(
        at(report, "fits"@),
        #[trigger] shortlist[i],
        real_tree(verdict.fits[i]),
    ) by {
        assert(ids(short)[i] == short[i].id);
    }
    assert forall|id: Seq<char>| #[trigger]
        has_field(at(report, "fits"@), id) implies shortlist.contains(id) by {
        assert(fits_map(short, verdict.fits, short.len()).contains_key(id));
        let i = choose|i: int| 0 <= i < short.len() && (#[trigger] short[i]).id == id;
        assert(ids(short)[i] == id);
    }
}

proof fn lemma_fits_keys(short: Seq<CandidateView>, fits: Seq<Real>, n: nat)
    requires
        n <= short.len(),
    ensures
        forall|id: Seq<char>| #[trigger]
            fits_map(short, fits, n).contains_key(id) ==> exists|i: int|
                0 <= i < n && (#[trigger] short[i]).id == id,
    decreases n,
{
    if n > 0 {
        lemma_fits_keys(short, fits, (n - 1) as nat);
        assert forall|id: Seq<char>| #[trigger]
            fits_map(short, fits, n).contains_key(id) implies exists|i: int|
            0 <= i < n && (#[trigger] short[i]).id == id by {
            if id != short[n - 1].id {
                assert(fits_map(short, fits, (n - 1) as nat).contains_key(id));
            }
        }
    }
}

/// The verdict is what the last response says: of the choice, its confidence and its
/// probabilities, all among the shortlist, and of each candidate of the shortlist whether
/// it fits.
pub proof fn law_verdicts_are_read(body: Tree, short: Seq<CandidateView>, v: VerdictView)
    requires
        verdict_in(body, short) == Ok::<VerdictView, Fault>(v),
    ensures
        ({
            let which = answer_at(body, "which"@);
            &&& answered(body, "which"@)
            &&& holds(which, "choice"@, Tree::Text(v.choice))
            &&& ids(short).contains(v.choice)
            &&& has_field(which, "confidence"@)
            &&& spec_as_real(at(which, "confidence"@)) == Some(v.confidence)
            &&& has_field(which, "probabilities"@)
            &&& fields_are(at(which, "probabilities"@), v.probabilities.dom())
            &&& forall|id: Seq<char>| #[trigger]
                v.probabilities.contains_key(id) ==> ids(short).contains(id) && spec_as_real(
                    at(at(which, "probabilities"@), id),
                ) == Some(v.probabilities[id])
            &&& v.fits.len() == short.len()
            &&& forall|i: int|
                0 <= i < short.len() ==> {
                    let id = "fits_"@ + (#[trigger] short[i]).id;
                    &&& answered(body, id)
                    &&& has_field(answer_at(body, id), "noul"@)
                    &&& spec_as_real(at(answer_at(body, id), "noul"@)) == Some(v.fits[i])
                }
        }),
{
    let options = verify_criteria(short).dom();
    law_choices_in_answers(body, "which"@, options, v.choice);
    law_numbers_in_answers(body, "which"@, v.confidence);
    law_probabilities_in_answers(body, "which"@, options, v.probabilities);
    assert(choice_among(body, "which"@, options) == Ok::<Seq<char>, Fault>(v.choice));
    assert(confidence_in(body, "which"@) == Ok::<Real, Fault>(v.confidence));
    assert(probabilities_among(body, "which"@, options) == Ok::<Map<Seq<char>, Real>, Fault>(
        v.probabilities,
    ));
    lemma_criteria_keys(short, v.choice);
    assert forall|id: Seq<char>| #[trigger]
        v.probabilities.contains_key(id) implies ids(short).contains(id) by {
        assert(v.probabilities.dom().contains(id));
        assert(options.contains(id));
        lemma_criteria_keys(short, id);
    }
    law_answers_are_read_in_turn(body, short.len(), fit_reading(short));
    assert(read_each(body, short.len(), fit_reading(short)) == Ok::<Seq<Real>, Fault>(v.fits));
    assert forall|i: int| 0 <= i < short.len() implies {
        let id = "fits_"@ + (#[trigger] short[i]).id;
        &&& answered(body, id)
        &&& has_field(answer_at(body, id), "noul"@)
        &&& spec_as_real(at(answer_at(body, id), "noul"@)) == Some(v.fits[i])
    } by {
        assert(fit_reading(short)(body, i as nat) == Ok::<Real, Fault>(v.fits[i]));
        assert(fit_id(short[i].id) == "fits_"@ + short[i].id);
        law_numbers_in_answers(body, fit_id(short[i].id), v.fits[i]);
    }
}

/// With more candidates than the shortlist holds two calls are made, and otherwise one; and
/// with no more candidates than that, all of them are in the shortlist.
pub proof fn law_calls_that_are_made(run: &ChooseRun)
    requires
        run.wf(),
    ensures
        run.candidates@.len() > run.shortlist_size ==> run.spec_passes() == 2,
        run.candidates@.len() <= run.shortlist_size ==> run.spec_passes() == 1 && run.shortlist
            is Some && run.short() == described(run.candidates@) && run.skimmed is None,
{
    if run.candidates@.len() <= run.shortlist_size {
        law_short_lists_are_kept_whole(described(run.candidates@));
    }
}

/// The shortlist goes from the most to the least probable, and where probabilities are equal
/// by the names; so too where some have to be left out.
pub proof fn law_shortlist_goes_by_probability(
    probabilities: Map<Seq<char>, Real>,
    size: int,
    i: int,
)
    requires
        probabilities.dom().finite(),
        probabilities.len() <= usize::MAX,
        size >= 0,
        0 <= i < shortlist_of(probabilities, size).len(),
    ensures
        ({
            let list = shortlist_of(probabilities, size);
            let rank = probabilities[list[i]].rank();
            &&& forall|j: int|
                i < j < list.len() ==> rank >= probabilities[#[trigger] list[j]].rank() && (rank
                    == probabilities[list[j]].rank() ==> before(list[i], list[j]))
            &&& forall|id: Seq<char>| #[trigger]
                probabilities.contains_key(id) && !list.contains(id) ==> rank
                    >= probabilities[id].rank() && (rank == probabilities[id].rank() ==> before(
                    list[i],
                    id,
                ))
        }),
{
    let keys = in_order(probabilities.dom());
    let values = values_at(probabilities, keys);
    let list = shortlist_of(probabilities, size);
    lemma_in_order(probabilities.dom());
    lemma_ascending_distinct(keys);
    keys.unique_seq_to_set();
    law_best_first_order_exists(values);
    let order = places_best_first(values);
    assert forall|a: int, b: int| 0 <= a < b < order.len() implies {
        let x = keys[#[trigger] order[a] as int];
        let y = keys[#[trigger] order[b] as int];
        &&& probabilities[x].rank() >= probabilities[y].rank()
        &&& probabilities[x].rank() == probabilities[y].rank() ==> before(x, y)
    } by {
        assert(precedes(values, order[a] as int, order[b] as int));
        if order[a] < order[b] {
            assert(before(keys[order[a] as int], keys[order[b] as int]));
        }
    }
    assert forall|j: int| i < j < list.len() implies probabilities[list[i]].rank()
        >= probabilities[#[trigger] list[j]].rank() && (probabilities[list[i]].rank()
        == probabilities[list[j]].rank() ==> before(list[i], list[j])) by {
        assert(keys[order[i] as int] == list[i]);
        assert(keys[order[j] as int] == list[j]);
    }
    assert forall|id: Seq<char>| #[trigger]
        probabilities.contains_key(id) && !list.contains(id) implies probabilities[list[i]].rank()
        >= probabilities[id].rank() && (probabilities[list[i]].rank() == probabilities[id].rank()
        ==> before(list[i], id)) by {
        assert(keys.to_set().contains(id));
        let p = keys.index_of(id);
        assert(keys[p] == id);
        assert(order.contains(p as usize));
        let a = order.index_of(p as usize);
        if a < list.len() {
            assert(list[a] == id);
        } else {
            assert(keys[order[i] as int] == list[i]);
            assert(keys[order[a] as int] == id);
        }
    }
}

/// The shortlist is settled by the probabilities that the first response gives to the
/// candidates; a response that gives none, or gives one to what is no candidate, is refused
/// for that.
pub proof fn law_skim_settles_the_shortlist(
    body: Tree,
    candidates: Seq<CandidateView>,
    size: int,
    p: Map<Seq<char>, Real>,
)
    ensures
        ({
            let which = answer_at(body, "which"@);
            &&& answered(body, "which"@)
            &&& has_field(which, "probabilities"@)
            &&& fields_are(at(which, "probabilities"@), p.dom())
            &&& forall|id: Seq<char>| #[trigger]
                p.contains_key(id) ==> ids(candidates).contains(id) && spec_as_real(
                    at(at(which, "probabilities"@), id),
                ) == Some(p[id])
        }) ==> shortlist_in(body, candidates, size) == Ok::<Seq<Seq<char>>, Fault>(
            shortlist_of(p, size),
        ),
        probabilities_among(body, "which"@, ids(candidates).to_set()) matches Err(e)
            ==> shortlist_in(body, candidates, size) == Err::<Seq<Seq<char>>, Fault>(e),
{
    let options = skim_criteria(candidates).dom();
    assert(options =~= ids(candidates).to_set()) by {
        assert forall|id: Seq<char>| options.contains(id) <==> ids(candidates).to_set().contains(
            id,
        ) by {
            lemma_criteria_keys(candidates, id);
            assert(skim_criteria(candidates).contains_key(id) <==> ids(candidates).contains(id));
        }
    }
    law_probabilities_in_answers(body, "which"@, options, p);
    if forall|id: Seq<char>| #[trigger] p.contains_key(id) ==> ids(candidates).contains(id) {
        assert forall|id: Seq<char>| p.dom().contains(id) implies options.contains(id) by {
            assert(p.contains_key(id));
        }
        assert(p.dom() <= options);
    }
}

/// A verdict is reached wherever the last response gives all that it is made of.
pub proof fn law_complete_responses_are_judged(
    body: Tree,
    short: Seq<CandidateView>,
    v: VerdictView,
)
    requires
        answered(body, "which"@),
        holds(answer_at(body, "which"@), "choice"@, Tree::Text(v.choice)),
        ids(short).contains(v.choice),
        has_field(answer_at(body, "which"@), "confidence"@),
        spec_as_real(at(answer_at(body, "which"@), "confidence"@)) == Some(v.confidence),
        has_field(answer_at(body, "which"@), "probabilities"@),
        fields_are(at(answer_at(body, "which"@), "probabilities"@), v.probabilities.dom()),
        forall|id: Seq<char>| #[trigger]
            v.probabilities.contains_key(id) ==> ids(short).contains(id) && spec_as_real(
                at(at(answer_at(body, "which"@), "probabilities"@), id),
            ) == Some(v.probabilities[id]),
        v.fits.len() == short.len(),
        forall|i: int|
            0 <= i < short.len() ==> noul_in(body, "fits_"@ + (#[trigger] short[i]).id) == Ok::<
                Real,
                Fault,
            >(v.fits[i]),
    ensures
        verdict_in(body, short) == Ok::<VerdictView, Fault>(v),
{
    let options = verify_criteria(short).dom();
    lemma_criteria_keys(short, v.choice);
    assert forall|id: Seq<char>| v.probabilities.dom().contains(id) implies options.contains(id) by {
        assert(v.probabilities.contains_key(id));
        lemma_criteria_keys(short, id);
    }
    assert(v.probabilities.dom() <= options);
    law_choices_in_answers(body, "which"@, options, v.choice);
    law_numbers_in_answers(body, "which"@, v.confidence);
    law_probabilities_in_answers(body, "which"@, options, v.probabilities);
    law_answers_are_read_in_turn(body, short.len(), fit_reading(short));
    assert forall|i: nat| i < short.len() implies #[trigger] fit_reading(short)(body, i) == Ok::<
        Real,
        Fault,
    >(v.fits[i as int]) by {
        assert(fit_id(short[i as int].id) == "fits_"@ + short[i as int].id);
    }
    let fits = read_each(body, short.len(), fit_reading(short))->Ok_0;
    assert forall|i: int| 0 <= i < short.len() implies fits[i] == v.fits[i] by {
        assert(fit_reading(short)(body, i as nat) == Ok::<Real, Fault>(fits[i as nat as int]));
    }
    assert(fits =~= v.fits);
}

/// A verdict that cannot be reached is refused for the first thing that is wrong with it: the
/// choice, its confidence, its probabilities, then whether each candidate fits, in turn.
pub proof fn law_first_fault_of_a_verdict(body: Tree, short: Seq<CandidateView>)
    ensures
        ({
            let options = ids(short).to_set();
            let choice = choice_among(body, "which"@, options);
            let confidence = confidence_in(body, "which"@);
            let probabilities = probabilities_among(body, "which"@, options);
            let fits = read_each(body, short.len(), fit_reading(short));
            &&& choice matches Err(e) ==> verdict_in(body, short) == Err::<VerdictView, Fault>(e)
            &&& choice is Ok && confidence is Err ==> verdict_in(body, short) == Err::<
                VerdictView,
                Fault,
            >(confidence->Err_0)
            &&& choice is Ok && confidence is Ok && probabilities is Err ==> verdict_in(
                body,
                short,
            ) == Err::<VerdictView, Fault>(probabilities->Err_0)
            &&& choice is Ok && confidence is Ok && probabilities is Ok && fits is Err
                ==> verdict_in(body, short) == Err::<VerdictView, Fault>(fits->Err_0)
        }),
{
    let options = verify_criteria(short).dom();
    assert(options =~= ids(short).to_set()) by {
        assert forall|id: Seq<char>| options.contains(id) <==> ids(short).to_set().contains(id) by {
            lemma_criteria_keys(short, id);
            assert(verify_criteria(short).contains_key(id) <==> ids(short).contains(id));
        }
    }
}

/// What is kept of the two responses is what they say.
pub proof fn law_verdicts_say_what_they_hold(verdict: Verdict, skimmed: Option<Table<Real>>)
    ensures
        verdict@.choice == verdict.choice@,
        verdict@.confidence == verdict.confidence,
        verdict@.probabilities == verdict.probabilities@,
        verdict@.fits == verdict.fits@,
        skim_view(skimmed) is Some <==> skimmed is Some,
        skimmed matches Some(p) ==> skim_view(skimmed) == Some(p@),
{
}

/// A selection begins with what the caller gives: the request, the candidates, as large a
/// shortlist as is asked for within its limits, the least fit or three tenths, and the model
/// or `jev-latest`; and with a skim exactly where there are more candidates than the
/// shortlist holds.
pub proof fn law_selections_begin_as_asked(args: ChooseOneArgs, r: Result<ChooseRun, ToolError>)
    requires
        call_ensures(choose_one, (args,), r),
    ensures
        r is Ok <==> 1 <= args.candidates@.len() <= 255 && (forall|i: int, j: int|
            0 <= i < j < args.candidates@.len() ==> (#[trigger] args.candidates@[i])@.id != (
            #[trigger] args.candidates@[j])@.id),
        r matches Ok(run) ==> {
            let size = match args.shortlist_size {
                None => 3,
                Some(n) => if n == 0 {
                    1
                } else if n > 10 {
                    10
                } else {
                    n as int
                },
            };
            &&& run.request == args.request
            &&& run.candidates@.len() == args.candidates@.len()
            &&& forall|i: int|
                0 <= i < run.candidates@.len() ==> (#[trigger] run.candidates@[i])@
                    == args.candidates@[i]@
            &&& run.shortlist_size == size
            &&& threshold_follows(args.min_fit, 0x3fd3_3333_3333_3333, run.min_fit)
            &&& model_follows(args.model, run.model@)
            &&& run.verdict is None
            &&& run.shortlist is None <==> args.candidates@.len() > size
        },
        r matches Err(e) ==> e@ is InvalidParams,
{
    let views = offered(args.candidates@);
    law_candidates_within_limits(views);
    law_shortlist_sizes(args.shortlist_size);
    lemma_threshold_follows(args.min_fit, THREE_TENTHS);
    assert forall|i: int| 0 <= i < args.candidates@.len() implies #[trigger] views[i]
        == args.candidates@[i]@ by {}
    if r is Ok {
        let run = r->Ok_0;
        assert(described(run.candidates@).len() == views.len());
        assert forall|i: int| 0 <= i < run.candidates@.len() implies (
        #[trigger] run.candidates@[i])@ == args.candidates@[i]@ by {
            assert(described(run.candidates@)[i] == views[i]);
        }
        assert forall|i: int, j: int| 0 <= i < j < args.candidates@.len() implies (
        #[trigger] args.candidates@[i])@.id != (#[trigger] args.candidates@[j])@.id by {
            assert(views[i].id != views[j].id);
        }
    } else if 1 <= args.candidates@.len() <= 255 {
        let (i, j) = choose|i: int, j: int|
            0 <= i < j < views.len() && (#[trigger] views[i]).id == (#[trigger] views[j]).id;
        assert(args.candidates@[i]@.id == args.candidates@[j]@.id);
    }
}

/// The first of two calls skims all candidates by their descriptions: each stands under its
/// id with its description as a text where it has one, and with null exactly where it has
/// none; and no other stands there.
pub proof fn law_selections_skim_by_descriptions(run: ChooseRun, r: Option<Json>)
    requires
        run.wf(),
        run.shortlist is None,
        call_ensures(ChooseRun::next_call, (&run,), r),
    ensures
        r is Some,
        ({
            let body = r->0@;
            let criteria = at(at(at(body, "questions"@), "which"@), "criteria"@);
            &&& holds(body, "model"@, Tree::Text(run.model@))
            &&& fields_are(at(body, "state"@), set!["request"@])
            &&& holds(at(body, "state"@), "request"@, Tree::Text(run.request@))
            &&& fields_are(at(body, "questions"@), set!["which"@])
            &&& criteria is Object
            &&& forall|i: int|
                0 <= i < run.candidates@.len() ==> match (#[trigger] run.candidates@[i]).description {
                    Some(text) => holds(criteria, run.candidates@[i].id@, Tree::Text(text@)),
                    None => holds(criteria, run.candidates@[i].id@, Tree::Null),
                }
            &&& forall|id: Seq<char>| #[trigger]
                has_field(criteria, id) ==> exists|i: int|
                    0 <= i < run.candidates@.len() && (#[trigger] run.candidates@[i]).id@ == id
        }),
{
    let views = described(run.candidates@);
    law_calls_hold_what_they_ask(
        Tree::Object(map!["request"@ => Tree::Text(run.request@)]),
        skim_questions(views),
        run.model@,
    );
    assert(skim_questions(views).dom() =~= set!["which"@]);
    assert(skim_questions(views).contains_key("which"@));
    let view = skim_questions(views)["which"@];
    law_choices_are_sent(view->Choice_instructions, view->Choice_criteria);
    let body = r->0@;
    assert(at(body, "state"@)->Object_0.dom() =~= set!["request"@]);
    let criteria = at(at(at(body, "questions"@), "which"@), "criteria"@);
    assert(criteria == Tree::Object(skim_criteria(views)));
    lemma_criteria_by_id(views);
    assert forall|i: int| 0 <= i < run.candidates@.len() implies match (
    #[trigger] run.candidates@[i]).description {
        Some(text) => holds(criteria, run.candidates@[i].id@, Tree::Text(text@)),
        None => holds(criteria, run.candidates@[i].id@, Tree::Null),
    } by {
        assert(views[i] == run.candidates@[i]@);
    }
    assert forall|id: Seq<char>| #[trigger] has_field(criteria, id) implies exists|i: int|
        0 <= i < run.candidates@.len() && (#[trigger] run.candidates@[i]).id@ == id by {
        lemma_criteria_keys(views, id);
        let i = choose|i: int| 0 <= i < ids(views).len() && ids(views)[i] == id;
        assert(views[i] == run.candidates@[i]@);
        assert(run.candidates@[i].id@ == id);
    }
}

/// Once the shortlist is settled, one call looks closer at it and at nothing else; and once
/// there is a verdict no call is left.
pub proof fn law_selections_look_closer(run: ChooseRun, r: Option<Json>)
    requires
        run.wf(),
        run.shortlist is Some,
        call_ensures(ChooseRun::next_call, (&run,), r),
    ensures
        r is Some <==> run.verdict is None,
        r matches Some(body) ==> body@ == verify_call(
            run.request@,
            named(described(run.candidates@), texts(run.shortlist->0@)),
            run.model@,
        ),
{
}

/// The report gives the choice unless a fit is demanded that none of the shortlist reaches,
/// and all that the responses said.
pub proof fn law_selections_report_their_choice(run: ChooseRun, r: Option<Json>)
    requires
        run.wf(),
        call_ensures(ChooseRun::report, (&run,), r),
    ensures
        r is Some <==> run.verdict is Some,
        r matches Some(report) ==> {
            let verdict = run.verdict->0;
            let rejected = rejects(verdict.fits@, run.min_fit);
            let listed = at(report@, "shortlist"@)->Array_0;
            let list = run.shortlist->0@;
            &&& holds(report@, "rejected"@, Tree::Bool(rejected))
            &&& rejected ==> holds(report@, "choice"@, Tree::Null)
            &&& !rejected ==> holds(report@, "choice"@, Tree::Text(verdict.choice@))
            &&& holds(report@, "confidence"@, real_tree(verdict.confidence))
            &&& run.candidates@.len() > run.shortlist_size ==> holds(
                report@,
                "passes"@,
                Tree::Integer(2),
            )
            &&& run.candidates@.len() <= run.shortlist_size ==> holds(
                report@,
                "passes"@,
                Tree::Integer(1),
            )
            &&& listed.len() == list.len()
            &&& forall|i: int|
                0 <= i < list.len() ==> #[trigger] listed[i] == Tree::Text(list[i]@) && holds(
                    at(report@, "fits"@),
                    list[i]@,
                    real_tree(verdict.fits@[i]),
                )
            &&& fields_are(
                at(report@, "selection_probabilities"@),
                verdict.probabilities@.dom(),
            )
            &&& forall|id: Seq<char>| #[trigger]
                verdict.probabilities@.contains_key(id) ==> holds(
                    at(report@, "selection_probabilities"@),
                    id,
                    real_tree(verdict.probabilities@[id]),
                )
            &&& has_field(report@, "skim_probabilities"@) <==> run.skimmed is Some
            &&& run.skimmed matches Some(p) ==> forall|id: Seq<char>| #[trigger]
                p@.contains_key(id) ==> holds(
                    at(report@, "skim_probabilities"@),
                    id,
                    real_tree(p@[id]),
                )
        },
{
    reveal_strlit("choice");
    reveal_strlit("rejected");
    reveal_strlit("confidence");
    reveal_strlit("selection_probabilities");
    reveal_strlit("shortlist");
    reveal_strlit("fits");
    reveal_strlit("passes");
    reveal_strlit("skim_probabilities");
    assert("choice"@.len() == 6);
    assert("rejected"@.len() == 8);
    assert("confidence"@.len() == 10);
    assert("selection_probabilities"@.len() == 23);
    assert("shortlist"@.len() == 9);
    assert("fits"@.len() == 4);
    assert("passes"@.len() == 6);
    assert("skim_probabilities"@.len() == 18);
    assert("choice"@[0] != "passes"@[0]);
    if r is Some {
        let list = texts(run.shortlist->0@);
        law_choice_is_reported(
            described(run.candidates@),
            list,
            skim_view(run.skimmed),
            run.verdict->0@,
            run.min_fit,
            run.spec_passes(),
        );
        law_calls_that_are_made(&run);
        let report = r->0@;
        let listed = at(report, "shortlist"@)->Array_0;
        assert forall|i: int| 0 <= i < run.shortlist->0@.len() implies #[trigger] listed[i]
            == Tree::Text(run.shortlist->0@[i]@) && holds(
            at(report, "fits"@),
            run.shortlist->0@[i]@,
            real_tree(run.verdict->0.fits@[i]),
        ) by {
            assert(list[i] == run.shortlist->0@[i]@);
        }
    }
}

/// The response to the skim is taken in exactly where the shortlist can be settled by it, and
/// then only the shortlist and what the skim found are set; otherwise nothing changes.
pub proof fn law_skims_are_taken_in(run: &mut ChooseRun, body: Json, r: Result<(), ToolError>)
    requires
        old(run).wf(),
        old(run).shortlist is None,
        call_ensures(ChooseRun::accept, (run, &body), r),
    ensures
        ({
            let names = ids(described(old(run).candidates@)).to_set();
            let found = probabilities_among(body@, "which"@, names);
            &&& r is Ok <==> found is Ok
            &&& r is Ok ==> {
                &&& final(run).skimmed is Some
                &&& final(run).skimmed->0@ == found->Ok_0
                &&& final(run).shortlist is Some
                &&& texts(final(run).shortlist->0@) == shortlist_of(
                    found->Ok_0,
                    old(run).shortlist_size as int,
                )
                &&& final(run).verdict is None
            }
        }),
        final(run).request == old(run).request,
        final(run).candidates == old(run).candidates,
        final(run).shortlist_size == old(run).shortlist_size,
        final(run).min_fit == old(run).min_fit,
        final(run).model == old(run).model,
        r is Err ==> *final(run) == *old(run),
{
    let candidates = described(old(run).candidates@);
    let options = skim_criteria(candidates).dom();
    assert(options =~= ids(candidates).to_set()) by {
        assert forall|id: Seq<char>| options.contains(id) <==> ids(candidates).to_set().contains(
            id,
        ) by {
            lemma_criteria_keys(candidates, id);
            assert(skim_criteria(candidates).contains_key(id) <==> ids(candidates).contains(id));
        }
    }
}

/// The last response is taken in exactly where a verdict can be read in it, and then only the
/// verdict is set; otherwise nothing changes.
pub proof fn law_verdicts_are_taken_in(run: &mut ChooseRun, body: Json, r: Result<(), ToolError>)
    requires
        old(run).wf(),
        old(run).shortlist is Some,
        old(run).verdict is None,
        call_ensures(ChooseRun::accept, (run, &body), r),
    ensures
        ({
            let short = named(
                described(old(run).candidates@),
                texts(old(run).shortlist->0@),
            );
            &&& r is Ok <==> verdict_in(body@, short) is Ok
            &&& r is Ok ==> final(run).verdict is Some && verdict_in(body@, short) == Ok::<
                VerdictView,
                Fault,
            >(final(run).verdict->0@)
        }),
        r is Ok ==> final(run).shortlist == old(run).shortlist && final(run).skimmed
            == old(run).skimmed,
        final(run).request == old(run).request,
        final(run).candidates == old(run).candidates,
        final(run).shortlist_size == old(run).shortlist_size,
        final(run).min_fit == old(run).min_fit,
        final(run).model == old(run).model,
        r is Err ==> *final(run) == *old(run),
{
}

} // verus!
