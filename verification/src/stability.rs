//! How much the answers to questions move when they are asked several times.
//!
//! The means and the spreads are sums and quotients of reals and are taken by the caller,
//! from the lists that `tallies` gives; what is decided by them is decided here.

use crate::answer::{
    all_offered, answer_at, answer_choice_among, answer_confidence, answer_noul,
    answer_probabilities_among, answer_score, answered, choice_among, choice_in, confidence_in,
    law_choices_in_answers, law_numbers_in_answers, law_probabilities_in_answers, noul_in,
    probabilities_among, probabilities_in, score_in,
};
use crate::bulk::{law_answers_are_read_in_turn, lemma_read_stops, read_each};
use crate::document::{real_trees, reals_by_key, reals_json};
use crate::error::{invalid_params_error, Fault, ToolError};
use crate::json::{
    at, fields_are, fields_of, given_fields, has_field, holds, object_fields, real_tree,
    spec_as_real, Json, Tree,
};
use crate::question::{
    call_body, call_tree, law_calls_hold_what_they_ask, model_follows, model_or_default,
    question_tree, questions_fault, spec_model, validate_questions, NoulCriteriaView, Question,
    QuestionView,
};
use crate::reals::{Real, INFINITY_BITS, NEGATIVE_INFINITY};
use crate::table::{
    in_order, lemma_ascending_distinct, lemma_in_order, lemma_walk_in_order, lemma_walk_step, walks,
    Table,
};
use crate::text::{decimal, decimal_text, join3, lemma_numeral_ends, same_text};
use vstd::prelude::*;
use vstd::string::*;

verus! {

/// How many samples are drawn unless the caller says otherwise.
pub const DEFAULT_SAMPLES: u32 = 5;

/// The fewest and the most samples that are drawn.
pub const MIN_SAMPLES: u32 = 2;

pub const MAX_SAMPLES: u32 = 20;

/// How many nanoseconds a second has.
pub const NANOS_PER_SECOND: u32 = 1_000_000_000;

/// What `stability_check` takes.
pub struct StabilityCheckArgs {
    pub state: serde_json::Value,
    pub questions: Table<Question>,
    pub samples: Option<u32>,
    pub model: Option<String>,
}

/// How many samples are drawn.
pub open spec fn spec_samples(asked: Option<u32>) -> u32 {
    match asked {
        Some(n) => n,
        None => DEFAULT_SAMPLES,
    }
}

/// Why a number of samples is refused.
pub open spec fn samples_fault(asked: Option<u32>) -> Option<Seq<char>> {
    match asked {
        Some(n) => if n < MIN_SAMPLES || n > MAX_SAMPLES {
            Some(
                "'samples' is "@ + decimal(n as nat)
                    + "; a stability check draws between 2 and 20 samples"@,
            )
        } else {
            None
        },
        None => None,
    }
}

/// Why a stability check is refused: for its questions first, then for its samples.
pub open spec fn stability_fault(
    questions: Map<Seq<char>, QuestionView>,
    samples: Option<u32>,
) -> Option<Seq<char>> {
    match questions_fault(questions) {
        Some(message) => Some(message),
        None => samples_fault(samples),
    }
}

/// The number of samples that is drawn, where it is within its bounds.
fn samples_or_default(asked: Option<u32>) -> (r: Result<u32, ToolError>)
    ensures
        match r {
            Ok(n) => samples_fault(asked) is None && n == spec_samples(asked) && MIN_SAMPLES <= n
                <= MAX_SAMPLES,
            Err(e) => samples_fault(asked) is Some && e@ == Fault::InvalidParams(
                samples_fault(asked)->0,
            ),
        },
{
    match asked {
        Some(n) => if n < MIN_SAMPLES || n > MAX_SAMPLES {
            Err(
                invalid_params_error(
                    join3(
                        "'samples' is ",
                        &decimal_text(n as u64),
                        "; a stability check draws between 2 and 20 samples",
                    ),
                ),
            )
        } else {
            Ok(n)
        },
        None => Ok(DEFAULT_SAMPLES),
    }
}

/// The `elapsed` of `std::time::SystemTime`, asked of the Unix epoch: how long ago it was
/// by the system's clock, or `None` where the clock stands before it. What the clock
/// shows is not stated.
#[verifier::external_body]
fn since_epoch() -> (r: Option<core::time::Duration>) {
    std::time::UNIX_EPOCH.elapsed().ok()
}

/// The nanoseconds of a duration beyond whole seconds, as `subsec_nanos` of
/// `core::time::Duration` gives them.
pub uninterp spec fn nanos_beyond_seconds(duration: core::time::Duration) -> u32;

/// The `subsec_nanos` of `core::time::Duration`: the nanoseconds beyond whole seconds, less
/// than a second of them. They depend on the duration alone.
pub assume_specification[ core::time::Duration::subsec_nanos ](
    duration: &core::time::Duration,
) -> (nanos: u32)
    ensures
        nanos == nanos_beyond_seconds(*duration),
        nanos < 1_000_000_000,
;

/// The nanoseconds beyond whole seconds in what a clock shows, or 0 where it cannot be read.
pub open spec fn nanos_shown(elapsed: Option<core::time::Duration>) -> u32 {
    match elapsed {
        Some(duration) => nanos_beyond_seconds(duration),
        None => 0,
    }
}

/// The nanoseconds beyond whole seconds in what a clock shows, or 0 where it cannot be read.
pub fn nanos_or_zero(elapsed: Option<core::time::Duration>) -> (r: u32)
    ensures
        r == nanos_shown(elapsed),
        r < NANOS_PER_SECOND,
{
    match elapsed {
        Some(duration) => duration.subsec_nanos(),
        None => 0,
    }
}

/// The nanoseconds that the system's clock shows beyond whole seconds, or 0 where it cannot
/// be read: what `nanos_or_zero` makes of some reading.
fn clock_nanos() -> (r: u32)
    ensures
        r < NANOS_PER_SECOND,
        exists|elapsed: Option<core::time::Duration>| r == #[trigger] nanos_shown(elapsed),
{
    nanos_or_zero(since_epoch())
}

/// What tells the sample `sample` apart from all others.
pub open spec fn sample_token(sample: nat, nanos: nat) -> Seq<char> {
    decimal(sample) + "-"@ + decimal(nanos)
}

/// The fields of an object.
pub open spec fn given_map(fields: Seq<(Seq<char>, serde_json::Value)>) -> Map<Seq<char>, Tree>
    decreases fields.len(),
{
    if fields.len() == 0 {
        Map::empty()
    } else {
        given_map(fields.drop_last()).insert(fields.last().0, Tree::Given(fields.last().1))
    }
}

/// The state of a sample: an object gets one more field with the token of the sample, and
/// anything else is left as it is.
pub open spec fn sample_state(state: serde_json::Value, sample: nat, nanos: nat) -> Tree {
    match object_fields(state) {
        Some(fields) => Tree::Object(
            given_map(fields).insert(
                "_stability_sample"@,
                Tree::Text(sample_token(sample, nanos)),
            ),
        ),
        None => Tree::Given(state),
    }
}

/// The fields of an object with the token of a sample among them.
pub fn tagged(fields: &Vec<(String, serde_json::Value)>, sample: u32, nanos: u32) -> (r: Json)
    ensures
        r@ == Tree::Object(
            given_map(given_fields(fields@)).insert(
                "_stability_sample"@,
                Tree::Text(sample_token(sample as nat, nanos as nat)),
            ),
        ),
{
    let ghost all = given_fields(fields@);
    let mut r = Json::object();
    let mut i: usize = 0;
    assert(all.take(0) =~= Seq::empty());
    while i < fields.len()
        invariant
            i <= fields@.len(),
            all == given_fields(fields@),
            r@ is Object,
            r@->Object_0 == given_map(all.take(i as int)),
        decreases fields.len() - i,
    {
        r = r.with(&fields[i].0, Json::Given(fields[i].1.clone()));
        proof {
            assert(all.take(i + 1).drop_last() =~= all.take(i as int));
            assert(all.take(i + 1).last() == all[i as int]);
        }
        i = i + 1;
    }
    assert(all.take(i as int) =~= all);
    let token = join3(&decimal_text(sample as u64), "-", &decimal_text(nanos as u64));
    r.with("_stability_sample", Json::Text(token))
}

/// The state of the sample `sample` where the clock shows `nanos`.
pub fn with_sample_token_at(state: &serde_json::Value, sample: u32, nanos: u32) -> (r: Json)
    ensures
        r@ == sample_state(*state, sample as nat, nanos as nat),
{
    match fields_of(state) {
        Some(fields) => tagged(&fields, sample, nanos),
        None => Json::Given(state.clone()),
    }
}

/// The state of the sample `sample` at this moment.
pub fn with_sample_token(state: &serde_json::Value, sample: u32) -> (r: Json)
    ensures
        exists|nanos: nat|
            nanos < NANOS_PER_SECOND && r@ == #[trigger] sample_state(
                *state,
                sample as nat,
                nanos,
            ),
{
    let nanos = clock_nanos();
    let r = with_sample_token_at(state, sample, nanos);
    assert(r@ == sample_state(*state, sample as nat, nanos as nat));
    r
}

/// One answer to a question.
pub enum Draw {
    Noul { probability: Real },
    Score { score: Real, confidence: Real },
    Choice { choice: String, probabilities: Table<Real>, confidence: Real },
}

/// What an answer says.
pub enum DrawView {
    Noul { probability: Real },
    Score { score: Real, confidence: Real },
    Choice { choice: Seq<char>, probabilities: Map<Seq<char>, Real>, confidence: Real },
}

impl View for Draw {
    type V = DrawView;

    open spec fn view(&self) -> DrawView {
        match *self {
            Draw::Noul { probability } => DrawView::Noul { probability },
            Draw::Score { score, confidence } => DrawView::Score { score, confidence },
            Draw::Choice { choice, probabilities, confidence } => DrawView::Choice {
                choice: choice@,
                probabilities: probabilities@,
                confidence,
            },
        }
    }
}

/// What answers say.
pub open spec fn seen(draws: Seq<Draw>) -> Seq<DrawView> {
    draws.map_values(|d: Draw| d@)
}

/// What the answers of several samples say.
pub open spec fn all_seen(drawn: Seq<Vec<Draw>>) -> Seq<Seq<DrawView>> {
    drawn.map_values(|d: Vec<Draw>| seen(d@))
}

/// Whether an answer is one to such a question: a choice, and all whose probability it
/// gives, are among the options.
pub open spec fn answers(d: DrawView, q: QuestionView) -> bool {
    match q {
        QuestionView::Noul { .. } => d is Noul,
        QuestionView::Score { .. } => d is Score,
        QuestionView::Choice { criteria, .. } => match d {
            DrawView::Choice { choice, probabilities, .. } => criteria.contains_key(choice)
                && all_offered(probabilities, criteria.dom()),
            _ => false,
        },
    }
}

/// The answer to the question `id` in a response.
pub open spec fn draw_in(body: Tree, id: Seq<char>, q: QuestionView) -> Result<DrawView, Fault> {
    match q {
        QuestionView::Noul { .. } => match noul_in(body, id) {
            Err(e) => Err(e),
            Ok(probability) => Ok(DrawView::Noul { probability }),
        },
        QuestionView::Score { .. } => match score_in(body, id) {
            Err(e) => Err(e),
            Ok(score) => match confidence_in(body, id) {
                Err(e) => Err(e),
                Ok(confidence) => Ok(DrawView::Score { score, confidence }),
            },
        },
        QuestionView::Choice { criteria, .. } => match choice_among(body, id, criteria.dom()) {
            Err(e) => Err(e),
            Ok(choice) => match probabilities_among(body, id, criteria.dom()) {
                Err(e) => Err(e),
                Ok(probabilities) => match confidence_in(body, id) {
                    Err(e) => Err(e),
                    Ok(confidence) => Ok(DrawView::Choice { choice, probabilities, confidence }),
                },
            },
        },
    }
}

fn read_draw(body: &Json, id: &str, q: &Question) -> (r: Result<Draw, ToolError>)
    ensures
        match r {
            Ok(d) => draw_in(body@, id@, q@) == Ok::<DrawView, Fault>(d@) && answers(d@, q@),
            Err(e) => draw_in(body@, id@, q@) == Err::<DrawView, Fault>(e@),
        },
{
    match q {
        Question::Noul { .. } => match answer_noul(body, id) {
            Err(e) => Err(e),
            Ok(probability) => Ok(Draw::Noul { probability }),
        },
        Question::Score { .. } => match answer_score(body, id) {
            Err(e) => Err(e),
            Ok(score) => match answer_confidence(body, id) {
                Err(e) => Err(e),
                Ok(confidence) => Ok(Draw::Score { score, confidence }),
            },
        },
        Question::Choice { criteria, .. } => match answer_choice_among(body, id, criteria) {
            Err(e) => Err(e),
            Ok(choice) => match answer_probabilities_among(body, id, criteria) {
                Err(e) => Err(e),
                Ok(probabilities) => match answer_confidence(body, id) {
                    Err(e) => Err(e),
                    Ok(confidence) => Ok(Draw::Choice { choice, probabilities, confidence }),
                },
            },
        },
    }
}

/// How the answer to the question at the place `i` is read.
pub open spec fn draw_reading(
    ids: Seq<Seq<char>>,
    questions: Map<Seq<char>, QuestionView>,
) -> spec_fn(Tree, nat) -> Result<DrawView, Fault> {
    |body: Tree, i: nat| draw_in(body, ids[i as int], questions[ids[i as int]])
}

/// The answers of all samples to the question at the place `i`.
pub open spec fn column(drawn: Seq<Seq<DrawView>>, i: int) -> Seq<DrawView> {
    drawn.map_values(|row: Seq<DrawView>| row[i])
}

/// The value of an answer: the probability of a yes, or the score. A choice has no value;
/// its confidence stands in here, and nothing reports or tallies it as a value.
pub open spec fn value_of(d: DrawView) -> Real
    recommends
        d !is Choice,
{
    match d {
        DrawView::Noul { probability } => probability,
        DrawView::Score { score, .. } => score,
        DrawView::Choice { confidence, .. } => confidence,
    }
}

/// The confidence of a score or a choice. A yes/no answer has none; its probability stands
/// in here, and nothing reports or tallies it as a confidence.
pub open spec fn confidence_of(d: DrawView) -> Real
    recommends
        d !is Noul,
{
    match d {
        DrawView::Noul { probability } => probability,
        DrawView::Score { confidence, .. } => confidence,
        DrawView::Choice { confidence, .. } => confidence,
    }
}

/// The probabilities of the options in an answer.
pub open spec fn options_of(d: DrawView) -> Map<Seq<char>, Real> {
    match d {
        DrawView::Choice { probabilities, .. } => probabilities,
        _ => Map::empty(),
    }
}

/// What has been gathered of each option after one more answer.
pub open spec fn merged(
    gathered: Map<Seq<char>, Seq<Real>>,
    more: Map<Seq<char>, Real>,
) -> Map<Seq<char>, Seq<Real>> {
    Map::new(
        |k: Seq<char>| gathered.contains_key(k) || more.contains_key(k),
        |k: Seq<char>|
            {
                let was = if gathered.contains_key(k) {
                    gathered[k]
                } else {
                    Seq::empty()
                };
                if more.contains_key(k) {
                    was.push(more[k])
                } else {
                    was
                }
            },
    )
}

/// The probabilities that the first `n` answers give each option that they name.
pub open spec fn option_values(draws: Seq<DrawView>, n: nat) -> Map<Seq<char>, Seq<Real>>
    decreases n,
{
    if n == 0 {
        Map::empty()
    } else {
        merged(option_values(draws, (n - 1) as nat), options_of(draws[n - 1]))
    }
}

/// The answers to one question, as lists of reals.
pub struct Tally {
    /// The probabilities of a yes, or the scores.
    pub values: Vec<Real>,
    /// The confidences, where the answers have them.
    pub confidences: Vec<Real>,
    /// The probabilities of each option of a choice.
    pub options: Table<Vec<Real>>,
}

/// Whether `tally` holds what the answers `draws` to the question `q` give.
pub open spec fn tallied(tally: Tally, q: QuestionView, draws: Seq<DrawView>) -> bool {
    &&& tally.values@ == (match q {
        QuestionView::Choice { .. } => Seq::empty(),
        _ => draws.map_values(|d: DrawView| value_of(d)),
    })
    &&& tally.confidences@ == (match q {
        QuestionView::Noul { .. } => Seq::empty(),
        _ => draws.map_values(|d: DrawView| confidence_of(d)),
    })
    &&& tally.options@ == option_values(draws, draws.len())
}

/// What the caller worked out of a tally.
pub struct Averages {
    /// The mean of the values.
    pub mean: Real,
    /// The standard deviation of the values.
    pub std: Real,
    /// The mean of the confidences.
    pub confidence_mean: Real,
    /// The mean of each option's probabilities, in the order of the options.
    pub option_means: Vec<Real>,
}

/// What averages say.
pub struct AveragesView {
    pub mean: Real,
    pub std: Real,
    pub confidence_mean: Real,
    pub option_means: Seq<Real>,
}

impl View for Averages {
    type V = AveragesView;

    open spec fn view(&self) -> AveragesView {
        AveragesView {
            mean: self.mean,
            std: self.std,
            confidence_mean: self.confidence_mean,
            option_means: self.option_means@,
        }
    }
}

/// What averages say.
pub open spec fn averaged(averages: Seq<Averages>) -> Seq<AveragesView> {
    averages.map_values(|a: Averages| a@)
}

/// The least of the first `n` values.
pub open spec fn least(values: Seq<Real>, n: nat) -> Real
    decreases n,
{
    if n == 0 {
        Real { bits: INFINITY_BITS }
    } else {
        let below = least(values, (n - 1) as nat);
        if values[n - 1].spec_lt(below) {
            values[n - 1]
        } else {
            below
        }
    }
}

/// The greatest of the first `n` values.
pub open spec fn greatest(values: Seq<Real>, n: nat) -> Real
    decreases n,
{
    if n == 0 {
        Real { bits: NEGATIVE_INFINITY }
    } else {
        let below = greatest(values, (n - 1) as nat);
        if below.spec_lt(values[n - 1]) {
            values[n - 1]
        } else {
            below
        }
    }
}

fn extremes(values: &Vec<Real>) -> (r: (Real, Real))
    ensures
        r.0 == least(values@, values@.len()),
        r.1 == greatest(values@, values@.len()),
{
    let mut low = Real { bits: INFINITY_BITS };
    let mut high = Real { bits: NEGATIVE_INFINITY };
    let mut i: usize = 0;
    while i < values.len()
        invariant
            i <= values@.len(),
            low == least(values@, i as nat),
            high == greatest(values@, i as nat),
        decreases values.len() - i,
    {
        if values[i].lt(low) {
            low = values[i];
        }
        if high.lt(values[i]) {
            high = values[i];
        }
        i = i + 1;
    }
    (low, high)
}

/// The place of the greatest among the first `n` means, and of equal ones the first; none
/// where no mean lies above negative infinity.
pub open spec fn best_place(means: Seq<Real>, n: nat) -> Option<int>
    decreases n,
{
    if n == 0 {
        None
    } else {
        let best = best_place(means, (n - 1) as nat);
        let top = match best {
            Some(i) => means[i],
            None => Real { bits: NEGATIVE_INFINITY },
        };
        if top.spec_lt(means[n - 1]) {
            Some(n - 1)
        } else {
            best
        }
    }
}

/// The option with the greatest mean probability, or an empty text where there is none.
pub open spec fn best_option(options: Seq<Seq<char>>, means: Seq<Real>) -> Seq<char> {
    match best_place(means, means.len()) {
        Some(i) => options[i],
        None => Seq::empty(),
    }
}

/// How many of the first `n` answers chose `option`.
pub open spec fn times_chosen(draws: Seq<DrawView>, option: Seq<char>, n: nat) -> nat
    decreases n,
{
    if n == 0 {
        0
    } else {
        times_chosen(draws, option, (n - 1) as nat) + (match draws[n - 1] {
            DrawView::Choice { choice, .. } => if choice == option {
                1nat
            } else {
                0nat
            },
            _ => 0nat,
        })
    }
}

/// What an answer chose.
pub open spec fn choice_of(d: DrawView) -> Seq<char> {
    match d {
        DrawView::Choice { choice, .. } => choice,
        _ => Seq::empty(),
    }
}

/// The greatest number of answers, among the first `n`, that name what one of the first `k`
/// answers chose.
pub open spec fn most_chosen_below(draws: Seq<DrawView>, n: nat, k: nat) -> nat
    decreases k,
{
    if k == 0 {
        0
    } else {
        let below = most_chosen_below(draws, n, (k - 1) as nat);
        let times = times_chosen(draws, choice_of(draws[k - 1]), n);
        if times > below {
            times
        } else {
            below
        }
    }
}

/// The greatest number of answers, among the first `n`, that name one and the same choice.
pub open spec fn most_chosen(draws: Seq<DrawView>, n: nat) -> nat {
    most_chosen_below(draws, n, n)
}

/// The mean of each option, by its name, for the first `n` options.
pub open spec fn means_map(options: Seq<Seq<char>>, means: Seq<Real>, n: nat) -> Map<
    Seq<char>,
    Tree,
>
    decreases n,
{
    if n == 0 {
        Map::empty()
    } else {
        means_map(options, means, (n - 1) as nat).insert(options[n - 1], real_tree(means[n - 1]))
    }
}

/// The probabilities that each answer gives the options that it names.
pub open spec fn sample_trees(draws: Seq<DrawView>) -> Seq<Tree> {
    draws.map_values(
        |d: DrawView| Tree::Object(options_of(d).map_values(|p: Real| real_tree(p))),
    )
}

/// What each answer chose.
pub open spec fn choice_trees(draws: Seq<DrawView>) -> Seq<Tree> {
    draws.map_values(|d: DrawView| Tree::Text(choice_of(d)))
}

/// What is reported of the answers to one question, where `shares[k]` is the share of `k`
/// samples among all.
pub open spec fn answer_report(
    q: QuestionView,
    draws: Seq<DrawView>,
    a: AveragesView,
    shares: Seq<Real>,
) -> Tree {
    let values = draws.map_values(|d: DrawView| value_of(d));
    let confidences = draws.map_values(|d: DrawView| confidence_of(d));
    match q {
        QuestionView::Noul { .. } => Tree::Object(
            map![
                "type"@ => Tree::Text("noul"@),
                "mean"@ => real_tree(a.mean),
                "std"@ => real_tree(a.std),
                "min"@ => real_tree(least(values, values.len())),
                "max"@ => real_tree(greatest(values, values.len())),
                "values"@ => Tree::Array(real_trees(values)),
            ],
        ),
        QuestionView::Score { .. } => Tree::Object(
            map![
                "type"@ => Tree::Text("score"@),
                "score_mean"@ => real_tree(a.mean),
                "score_std"@ => real_tree(a.std),
                "score_min"@ => real_tree(least(values, values.len())),
                "score_max"@ => real_tree(greatest(values, values.len())),
                "confidence_mean"@ => real_tree(a.confidence_mean),
                "values"@ => Tree::Array(real_trees(values)),
                "confidences"@ => Tree::Array(real_trees(confidences)),
            ],
        ),
        QuestionView::Choice { .. } => {
            let options = in_order(option_values(draws, draws.len()).dom());
            let best = best_option(options, a.option_means);
            Tree::Object(
                map![
                    "type"@ => Tree::Text("choice"@),
                    "choice"@ => Tree::Text(best),
                    "modal_share"@ => real_tree(shares[most_chosen(draws, draws.len()) as int]),
                    "probabilities"@ => Tree::Object(
                        means_map(options, a.option_means, options.len()),
                    ),
                    "confidence_mean"@ => real_tree(a.confidence_mean),
                    "values"@ => Tree::Array(sample_trees(draws)),
                    "choices"@ => Tree::Array(choice_trees(draws)),
                    "confidences"@ => Tree::Array(real_trees(confidences)),
                ],
            )
        },
    }
}

/// What is reported of the first `n` questions.
pub open spec fn answers_map(
    ids: Seq<Seq<char>>,
    questions: Map<Seq<char>, QuestionView>,
    drawn: Seq<Seq<DrawView>>,
    averages: Seq<AveragesView>,
    shares: Seq<Real>,
    n: nat,
) -> Map<Seq<char>, Tree>
    decreases n,
{
    if n == 0 {
        Map::empty()
    } else {
        answers_map(ids, questions, drawn, averages, shares, (n - 1) as nat).insert(
            ids[n - 1],
            answer_report(questions[ids[n - 1]], column(drawn, n - 1), averages[n - 1], shares),
        )
    }
}

/// What is reported.
pub open spec fn stability_report(
    questions: Map<Seq<char>, QuestionView>,
    drawn: Seq<Seq<DrawView>>,
    averages: Seq<AveragesView>,
    shares: Seq<Real>,
) -> Tree {
    let ids = in_order(questions.dom());
    Tree::Object(
        map![
            "samples"@ => Tree::Integer(drawn.len() as int),
            "answers"@ => Tree::Object(
                answers_map(ids, questions, drawn, averages, shares, ids.len()),
            ),
        ],
    )
}

/// Questions on their way through the samples.
pub struct StabilityRun {
    pub state: serde_json::Value,
    pub questions: Table<Question>,
    pub samples: u32,
    pub model: String,
    /// The answers of each sample so far, in the order of the questions.
    pub drawn: Vec<Vec<Draw>>,
    /// The responses so far.
    pub heard: Ghost<Seq<Tree>>,
}

/// Begins to sample: refuses questions that cannot be asked, and a number of samples out of
/// bounds, before anything is asked.
pub fn stability_check(args: StabilityCheckArgs) -> (r: Result<StabilityRun, ToolError>)
    ensures
        match r {
            Ok(run) => {
                &&& stability_fault(args.questions@, args.samples) is None
                &&& run.wf()
                &&& run.state == args.state
                &&& run.questions == args.questions
                &&& run.samples == spec_samples(args.samples)
                &&& run.model@ == spec_model(args.model)
                &&& run.drawn@.len() == 0
            },
            Err(e) => stability_fault(args.questions@, args.samples) is Some && e@
                == Fault::InvalidParams(stability_fault(args.questions@, args.samples)->0),
        },
{
    if let Err(e) = validate_questions(&args.questions) {
        return Err(e);
    }
    match samples_or_default(args.samples) {
        Err(e) => Err(e),
        Ok(samples) => {
            proof {
                lemma_walk_in_order(&args.questions);
            }
            Ok(
                StabilityRun {
                    state: args.state,
                    questions: args.questions,
                    samples,
                    model: model_or_default(args.model),
                    drawn: Vec::new(),
                    heard: Ghost(Seq::empty()),
                },
            )
        },
    }
}

impl StabilityRun {
    /// The ids of the questions in their order.
    pub open spec fn ids(&self) -> Seq<Seq<char>> {
        in_order(self.questions@.dom())
    }

    pub open spec fn wf(&self) -> bool {
        &&& MIN_SAMPLES <= self.samples <= MAX_SAMPLES
        &&& walks(&self.questions)
        &&& self.questions.keys() == self.ids()
        &&& self.drawn@.len() <= self.samples
        &&& self.heard@.len() == self.drawn@.len()
        &&& forall|s: int|
            0 <= s < self.drawn@.len() ==> (#[trigger] self.drawn@[s])@.len() == self.ids().len()
                && read_each(
                self.heard@[s],
                self.ids().len(),
                draw_reading(self.ids(), self.questions@),
            ) == Ok::<Seq<DrawView>, Fault>(seen(self.drawn@[s]@))
        &&& forall|s: int, i: int|
            0 <= s < self.drawn@.len() && 0 <= i < self.ids().len() ==> answers(
                (#[trigger] self.drawn@[s]@[i])@,
                self.questions@[self.ids()[i]],
            )
    }

    /// Whether a sample is still to be drawn.
    pub open spec fn pending(&self) -> bool {
        self.drawn@.len() < self.samples
    }

    /// The body of the next call where the clock shows `nanos`: the same questions about
    /// the same state, told apart from the other samples.
    pub fn call_at(&self, nanos: u32) -> (r: Json)
        requires
            self.wf(),
        ensures
            r@ == call_tree(
                sample_state(self.state, self.drawn@.len(), nanos as nat),
                self.questions@,
                self.model@,
            ),
    {
        let sample = self.drawn.len() as u32;
        call_body(
            with_sample_token_at(&self.state, sample, nanos),
            &self.questions,
            &self.model,
        )
    }

    /// The body of the next call.
    pub fn next_call(&self) -> (r: Option<Json>)
        requires
            self.wf(),
        ensures
            match r {
                Some(body) => self.pending() && exists|nanos: nat|
                    nanos < NANOS_PER_SECOND && body@ == call_tree(
                        #[trigger] sample_state(self.state, self.drawn@.len(), nanos),
                        self.questions@,
                        self.model@,
                    ),
                None => !self.pending(),
            },
    {
        if self.drawn.len() < self.samples as usize {
            let state = with_sample_token(&self.state, self.drawn.len() as u32);
            Some(call_body(state, &self.questions, &self.model))
        } else {
            None
        }
    }

    /// Takes in the response to the call that `next_call` gave. A response that leaves a
    /// question unanswered is refused whole.
    pub fn accept(&mut self, body: &Json) -> (r: Result<(), ToolError>)
        requires
            old(self).wf(),
            old(self).pending(),
        ensures
            final(self).wf(),
            final(self).state == old(self).state,
            final(self).questions == old(self).questions,
            final(self).samples == old(self).samples,
            final(self).model == old(self).model,
            match r {
                Ok(_) => {
                    let read = read_each(
                        body@,
                        old(self).ids().len(),
                        draw_reading(old(self).ids(), old(self).questions@),
                    );
                    &&& read is Ok
                    &&& all_seen(final(self).drawn@) == all_seen(old(self).drawn@).push(read->Ok_0)
                    &&& final(self).heard@ == old(self).heard@.push(body@)
                },
                Err(e) => read_each(
                    body@,
                    old(self).ids().len(),
                    draw_reading(old(self).ids(), old(self).questions@),
                ) == Err::<Seq<DrawView>, Fault>(e@) && *final(self) == *old(self),
            },
    {
        let ghost ids = self.ids();
        let ghost reading = draw_reading(ids, self.questions@);
        let n = self.questions.len();
        let mut row: Vec<Draw> = Vec::new();
        let mut i: usize = 0;
        assert(seen(row@) =~= Seq::empty());
        while i < n
            invariant
                i <= n,
                *self == *old(self),
                self.wf(),
                ids == self.ids(),
                n == ids.len(),
                reading == draw_reading(ids, self.questions@),
                row@.len() == i,
                read_each(body@, i as nat, reading) == Ok::<Seq<DrawView>, Fault>(seen(row@)),
                forall|k: int|
                    0 <= k < i ==> answers((#[trigger] row@[k])@, self.questions@[ids[k]]),
            decreases n - i,
        {
            assert(self.questions@[ids[i as int]] == self.questions.values()[i as int]@);
            match read_draw(body, self.questions.key_at(i), self.questions.value_at(i)) {
                Ok(d) => {
                    let ghost was = row@;
                    row.push(d);
                    assert(seen(row@) =~= seen(was).push(d@));
                },
                Err(e) => {
                    proof {
                        lemma_read_stops(body@, (i + 1) as nat, n as nat, reading);
                    }
                    return Err(e);
                },
            }
            i = i + 1;
        }
        let ghost was = self.drawn@;
        let ghost heard = self.heard@;
        self.drawn.push(row);
        self.heard = Ghost(heard.push(body@));
        proof {
            assert(all_seen(self.drawn@) =~= all_seen(was).push(seen(row@)));
            assert forall|s: int| 0 <= s < self.drawn@.len() implies (#[trigger] self.drawn@[s])@.len()
                == self.ids().len() && read_each(
                self.heard@[s],
                self.ids().len(),
                draw_reading(self.ids(), self.questions@),
            ) == Ok::<Seq<DrawView>, Fault>(seen(self.drawn@[s]@)) by {
                if s < was.len() {
                    assert(self.drawn@[s] == was[s]);
                }
            }
            assert forall|s: int, k: int|
                0 <= s < self.drawn@.len() && 0 <= k < self.ids().len() implies answers(
                (#[trigger] self.drawn@[s]@[k])@,
                self.questions@[self.ids()[k]],
            ) by {
                if s < was.len() {
                    assert(self.drawn@[s] == was[s]);
                    assert(answers(was[s]@[k]@, self.questions@[self.ids()[k]]));
                }
            }
        }
        Ok(())
    }

    /// The answers so far to the question at the place `i`.
    pub open spec fn answers_to(&self, i: int) -> Seq<DrawView> {
        column(all_seen(self.drawn@), i)
    }

    /// The lists of reals in the answers to the question at the place `i`.
    fn tally(&self, i: usize) -> (r: Tally)
        requires
            self.wf(),
            i < self.ids().len(),
        ensures
            tallied(r, self.questions@[self.ids()[i as int]], self.answers_to(i as int)),
            walks(&r.options),
    {
        let ghost q = self.questions@[self.ids()[i as int]];
        let ghost draws = self.answers_to(i as int);
        let ghost all_values = draws.map_values(|d: DrawView| value_of(d));
        let ghost all_confidences = draws.map_values(|d: DrawView| confidence_of(d));
        let mut values: Vec<Real> = Vec::new();
        let mut confidences: Vec<Real> = Vec::new();
        let mut options: Table<Vec<Real>> = Table::new();
        let mut s: usize = 0;
        assert(all_values.take(0) =~= Seq::empty());
        assert(all_confidences.take(0) =~= Seq::empty());
        while s < self.drawn.len()
            invariant
                self.wf(),
                i < self.ids().len(),
                s <= self.drawn@.len(),
                q == self.questions@[self.ids()[i as int]],
                draws == self.answers_to(i as int),
                draws.len() == self.drawn@.len(),
                all_values == draws.map_values(|d: DrawView| value_of(d)),
                all_confidences == draws.map_values(|d: DrawView| confidence_of(d)),
                values@ == (match q {
                    QuestionView::Choice { .. } => Seq::empty(),
                    _ => all_values.take(s as int),
                }),
                confidences@ == (match q {
                    QuestionView::Noul { .. } => Seq::empty(),
                    _ => all_confidences.take(s as int),
                }),
                options@ == option_values(draws, s as nat),
                walks(&options),
            decreases self.drawn.len() - s,
        {
            let draw = &self.drawn[s][i];
            proof {
                assert(answers(self.drawn@[s as int]@[i as int]@, q));
                assert(draws[s as int] == draw@);
                assert(all_values.take(s + 1) =~= all_values.take(s as int).push(value_of(draw@)));
                assert(all_confidences.take(s + 1) =~= all_confidences.take(s as int).push(
                    confidence_of(draw@),
                ));
            }
            match draw {
                Draw::Noul { probability } => {
                    values.push(*probability);
                    assert(merged(options@, Map::empty()) =~= options@);
                },
                Draw::Score { score, confidence } => {
                    values.push(*score);
                    confidences.push(*confidence);
                    assert(merged(options@, Map::empty()) =~= options@);
                },
                Draw::Choice { choice: _, probabilities, confidence } => {
                    confidences.push(*confidence);
                    options = merge(options, probabilities);
                },
            }
            s = s + 1;
        }
        proof {
            assert(all_values.take(s as int) =~= all_values);
            assert(all_confidences.take(s as int) =~= all_confidences);
        }
        Tally { values, confidences, options }
    }

    /// The lists of reals in the answers to each question, in the order of the questions.
    pub fn tallies(&self) -> (r: Vec<Tally>)
        requires
            self.wf(),
        ensures
            r@.len() == self.ids().len(),
            forall|i: int|
                0 <= i < r@.len() ==> tallied(
                    #[trigger] r@[i],
                    self.questions@[self.ids()[i]],
                    self.answers_to(i),
                ) && walks(&r@[i].options),
    {
        let n = self.questions.len();
        let mut r: Vec<Tally> = Vec::new();
        let mut i: usize = 0;
        while i < n
            invariant
                self.wf(),
                i <= n,
                n == self.ids().len(),
                r@.len() == i,
                forall|k: int|
                    0 <= k < i ==> tallied(
                        #[trigger] r@[k],
                        self.questions@[self.ids()[k]],
                        self.answers_to(k),
                    ) && walks(&r@[k].options),
            decreases n - i,
        {
            r.push(self.tally(i));
            i = i + 1;
        }
        r
    }

    /// How many samples chose `option` for the question at the place `i`.
    fn count_chosen(&self, i: usize, option: &str) -> (r: usize)
        requires
            self.wf(),
            i < self.ids().len(),
        ensures
            r == times_chosen(self.answers_to(i as int), option@, self.drawn@.len()),
            r <= self.drawn@.len(),
    {
        let ghost draws = self.answers_to(i as int);
        let mut count: usize = 0;
        let mut s: usize = 0;
        while s < self.drawn.len()
            invariant
                self.wf(),
                i < self.ids().len(),
                s <= self.drawn@.len(),
                draws == self.answers_to(i as int),
                count <= s,
                count == times_chosen(draws, option@, s as nat),
            decreases self.drawn.len() - s,
        {
            let draw = &self.drawn[s][i];
            assert(draws[s as int] == draw@);
            match draw {
                Draw::Choice { choice, .. } => {
                    if same_text(choice, option) {
                        count = count + 1;
                    }
                },
                _ => {},
            }
            s = s + 1;
        }
        count
    }

    /// How many samples made the most frequent choice for the question at the place `i`.
    fn count_mode(&self, i: usize) -> (r: usize)
        requires
            self.wf(),
            i < self.ids().len(),
        ensures
            r == most_chosen(self.answers_to(i as int), self.drawn@.len()),
            r <= self.drawn@.len(),
    {
        let ghost draws = self.answers_to(i as int);
        let ghost n = self.drawn@.len();
        let none = String::new();
        let mut most: usize = 0;
        let mut s: usize = 0;
        while s < self.drawn.len()
            invariant
                self.wf(),
                i < self.ids().len(),
                s <= self.drawn@.len(),
                n == self.drawn@.len(),
                draws == self.answers_to(i as int),
                none@ == Seq::<char>::empty(),
                most <= n,
                most == most_chosen_below(draws, n, s as nat),
            decreases self.drawn.len() - s,
        {
            let draw = &self.drawn[s][i];
            assert(draws[s as int] == draw@);
            let times = match draw {
                Draw::Choice { choice, .. } => self.count_chosen(i, choice),
                _ => self.count_chosen(i, &none),
            };
            if times > most {
                most = times;
            }
            s = s + 1;
        }
        most
    }

    /// The probabilities in each answer to the question at the place `i`, and what each
    /// answer chose.
    fn samples_json(&self, i: usize) -> (r: (Json, Json))
        requires
            self.wf(),
            i < self.ids().len(),
        ensures
            r.0@ == Tree::Array(sample_trees(self.answers_to(i as int))),
            r.1@ == Tree::Array(choice_trees(self.answers_to(i as int))),
    {
        let ghost draws = self.answers_to(i as int);
        let none = String::new();
        let mut values = Json::array();
        let mut choices = Json::array();
        let mut s: usize = 0;
        assert(sample_trees(draws).take(0) =~= Seq::empty());
        assert(choice_trees(draws).take(0) =~= Seq::empty());
        while s < self.drawn.len()
            invariant
                self.wf(),
                i < self.ids().len(),
                s <= self.drawn@.len(),
                draws == self.answers_to(i as int),
                none@ == Seq::<char>::empty(),
                values@ is Array,
                values@->Array_0 == sample_trees(draws).take(s as int),
                choices@ is Array,
                choices@->Array_0 == choice_trees(draws).take(s as int),
            decreases self.drawn.len() - s,
        {
            let draw = &self.drawn[s][i];
            assert(draws[s as int] == draw@);
            match draw {
                Draw::Choice { choice, probabilities, .. } => {
                    values = values.followed_by(reals_by_key(probabilities));
                    choices = choices.followed_by(Json::text(choice));
                },
                _ => {
                    let empty = Json::object();
                    assert(empty@->Object_0 =~= options_of(draw@).map_values(
                        |p: Real| real_tree(p),
                    ));
                    values = values.followed_by(empty);
                    choices = choices.followed_by(Json::text(&none));
                },
            }
            proof {
                assert(sample_trees(draws).take(s + 1) =~= sample_trees(draws).take(s as int).push(
                    sample_trees(draws)[s as int],
                ));
                assert(choice_trees(draws).take(s + 1) =~= choice_trees(draws).take(s as int).push(
                    choice_trees(draws)[s as int],
                ));
            }
            s = s + 1;
        }
        assert(sample_trees(draws).take(s as int) =~= sample_trees(draws));
        assert(choice_trees(draws).take(s as int) =~= choice_trees(draws));
        (values, choices)
    }

    /// The report on the question at the place `i`.
    fn answer_json(&self, i: usize, a: &Averages, shares: &Vec<Real>) -> (r: Json)
        requires
            self.wf(),
            i < self.ids().len(),
            shares@.len() > self.drawn@.len(),
            a.option_means@.len() == option_values(
                self.answers_to(i as int),
                self.drawn@.len(),
            ).len(),
        ensures
            r@ == answer_report(
                self.questions@[self.ids()[i as int]],
                self.answers_to(i as int),
                a@,
                shares@,
            ),
    {
        let tally = self.tally(i);
        proof {
            assert(self.questions@[self.questions.keys()[i as int]]
                == self.questions.values()[i as int]@);
        }
        match self.questions.value_at(i) {
            Question::Noul { .. } => {
                let (low, high) = extremes(&tally.values);
                Json::object().with("type", Json::text("noul")).with(
                    "mean",
                    Json::number(a.mean),
                ).with("std", Json::number(a.std)).with("min", Json::number(low)).with(
                    "max",
                    Json::number(high),
                ).with("values", reals_json(&tally.values))
            },
            Question::Score { .. } => {
                let (low, high) = extremes(&tally.values);
                Json::object().with("type", Json::text("score")).with(
                    "score_mean",
                    Json::number(a.mean),
                ).with("score_std", Json::number(a.std)).with("score_min", Json::number(low)).with(
                    "score_max",
                    Json::number(high),
                ).with("confidence_mean", Json::number(a.confidence_mean)).with(
                    "values",
                    reals_json(&tally.values),
                ).with("confidences", reals_json(&tally.confidences))
            },
            Question::Choice { .. } => {
                let ghost options = tally.options.keys();
                proof {
                    lemma_walk_in_order(&tally.options);
                }
                let n = tally.options.len();
                let mut best: Option<usize> = None;
                let mut top = Real { bits: NEGATIVE_INFINITY };
                let mut means = Json::object();
                let mut k: usize = 0;
                while k < n
                    invariant
                        k <= n,
                        n == options.len(),
                        options == tally.options.keys(),
                        a.option_means@.len() == n,
                        best_place(a.option_means@, k as nat) == (match best {
                            Some(b) => Some(b as int),
                            None => None,
                        }),
                        best matches Some(b) ==> b < k,
                        top == (match best {
                            Some(b) => a.option_means@[b as int],
                            None => Real { bits: NEGATIVE_INFINITY },
                        }),
                        means@ is Object,
                        means@->Object_0 == means_map(options, a.option_means@, k as nat),
                    decreases n - k,
                {
                    let m = a.option_means[k];
                    if top.lt(m) {
                        best = Some(k);
                        top = m;
                    }
                    means = means.with(tally.options.key_at(k), Json::number(m));
                    k = k + 1;
                }
                let choice = match best {
                    Some(b) => tally.options.key_at(b).clone(),
                    None => String::new(),
                };
                assert(choice@ == best_option(options, a.option_means@));
                let count = self.count_mode(i);
                let (values, choices) = self.samples_json(i);
                Json::object().with("type", Json::text("choice")).with(
                    "choice",
                    Json::text(&choice),
                ).with("modal_share", Json::number(shares[count])).with(
                    "probabilities",
                    means,
                ).with("confidence_mean", Json::number(a.confidence_mean)).with(
                    "values",
                    values,
                ).with("choices", choices).with("confidences", reals_json(&tally.confidences))
            },
        }
    }

    /// The report on all questions, from what the caller worked out of the tallies and from
    /// the share that `k` samples have among all, for each `k`.
    pub fn report(&self, averages: &Vec<Averages>, shares: &Vec<Real>) -> (r: Json)
        requires
            self.wf(),
            !self.pending(),
            averages@.len() == self.ids().len(),
            forall|i: int|
                0 <= i < averages@.len() ==> (#[trigger] averages@[i]).option_means@.len()
                    == option_values(self.answers_to(i), self.drawn@.len()).len(),
            shares@.len() > self.drawn@.len(),
        ensures
            r@ == stability_report(
                self.questions@,
                all_seen(self.drawn@),
                averaged(averages@),
                shares@,
            ),
    {
        let ghost ids = self.ids();
        let ghost drawn = all_seen(self.drawn@);
        let n = self.questions.len();
        let mut reported = Json::object();
        let mut i: usize = 0;
        while i < n
            invariant
                self.wf(),
                i <= n,
                n == ids.len(),
                ids == self.ids(),
                drawn == all_seen(self.drawn@),
                averages@.len() == n,
                forall|k: int|
                    0 <= k < averages@.len() ==> (#[trigger] averages@[k]).option_means@.len()
                        == option_values(self.answers_to(k), self.drawn@.len()).len(),
                shares@.len() > self.drawn@.len(),
                reported@ is Object,
                reported@->Object_0 == answers_map(
                    ids,
                    self.questions@,
                    drawn,
                    averaged(averages@),
                    shares@,
                    i as nat,
                ),
            decreases n - i,
        {
            reported = reported.with(
                self.questions.key_at(i),
                self.answer_json(i, &averages[i], shares),
            );
            assert(averaged(averages@)[i as int] == averages@[i as int]@);
            i = i + 1;
        }
        Json::object().with("samples", Json::count(self.drawn.len())).with("answers", reported)
    }
}

/// Gathers one more answer's probability for each option that it names.
fn merge(gathered: Table<Vec<Real>>, more: &Table<Real>) -> (r: Table<Vec<Real>>)
    requires
        walks(&gathered),
    ensures
        r@ == merged(gathered@, more@),
        walks(&r),
{
    let ghost was = gathered@;
    let n = more.len();
    let mut gathered = gathered;
    let mut i: usize = 0;
    while i < n
        invariant
            i <= n,
            n == more.keys().len(),
            walks(more),
            walks(&gathered),
            forall|k: Seq<char>| #[trigger]
                gathered@.contains_key(k) <==> was.contains_key(k) || more.keys().take(
                    i as int,
                ).contains(k),
            forall|k: Seq<char>| #[trigger]
                gathered@.contains_key(k) && !more.keys().take(i as int).contains(k)
                    ==> gathered@[k] == was[k],
            forall|k: Seq<char>| #[trigger]
                gathered@.contains_key(k) && more.keys().take(i as int).contains(k)
                    ==> gathered@[k] == merged(was, more@)[k],
        decreases n - i,
    {
        let ghost key = more.keys()[i as int];
        proof {
            lemma_walk_step(more.keys(), i as int);
            assert(more@[key] == more.values()[i as int]@);
        }
        let mut list: Vec<Real> = match gathered.get(more.key_at(i)) {
            Some(list) => list.clone(),
            None => Vec::new(),
        };
        list.push(*more.value_at(i));
        gathered.insert(more.key_at(i).clone(), list);
        i = i + 1;
    }
    proof {
        assert(more.keys().take(i as int) =~= more.keys());
        assert forall|k: Seq<char>| #[trigger] gathered@.contains_key(k) implies merged(
            was,
            more@,
        ).contains_key(k) && gathered@[k] == merged(was, more@)[k] by {
            if more.keys().contains(k) {
                let j = more.keys().index_of(k);
                assert(more@.contains_key(more.keys()[j]));
            }
        }
        assert(gathered@ =~= merged(was, more@));
    }
    gathered
}

/// No two samples of an object get the same state, whatever the clock shows.
pub proof fn law_samples_differ(
    state: serde_json::Value,
    a: nat,
    b: nat,
    nanos_a: nat,
    nanos_b: nat,
)
    requires
        object_fields(state) is Some,
        a != b,
    ensures
        sample_token(a, nanos_a) != sample_token(b, nanos_b),
        sample_state(state, a, nanos_a) != sample_state(state, b, nanos_b),
{
    reveal_strlit("-");
    let rest_a = "-"@ + decimal(nanos_a);
    let rest_b = "-"@ + decimal(nanos_b);
    assert(rest_a[0] == '-' && rest_b[0] == '-');
    assert(sample_token(a, nanos_a) =~= decimal(a) + rest_a);
    assert(sample_token(b, nanos_b) =~= decimal(b) + rest_b);
    if sample_token(a, nanos_a) == sample_token(b, nanos_b) {
        lemma_numeral_ends(a, b, rest_a, rest_b);
    }
    let x = sample_state(state, a, nanos_a)->Object_0;
    let y = sample_state(state, b, nanos_b)->Object_0;
    assert(x["_stability_sample"@] != y["_stability_sample"@]);
}

/// Sampling leaves the caller's state as it is, but for the one field that tells the
/// samples apart, and a state that is no object it leaves altogether.
pub proof fn law_samples_keep_the_state(state: serde_json::Value, sample: nat, nanos: nat)
    ensures
        object_fields(state) is None ==> sample_state(state, sample, nanos) == Tree::Given(state),
        object_fields(state) matches Some(fields) ==> sample_state(state, sample, nanos) is Object
            && sample_state(state, sample, nanos)->Object_0.remove("_stability_sample"@)
            == given_map(fields).remove("_stability_sample"@),
{
    if object_fields(state) is Some {
        let fields = object_fields(state)->0;
        assert(sample_state(state, sample, nanos)->Object_0.remove("_stability_sample"@)
            =~= given_map(fields).remove("_stability_sample"@));
    }
}

/// The reported extremes of numbers are among them and bound them.
pub proof fn law_extremes_bound_the_values(values: Seq<Real>, n: nat)
    requires
        n <= values.len(),
        forall|i: int| 0 <= i < n ==> (#[trigger] values[i]).spec_is_finite(),
    ensures
        forall|i: int|
            0 <= i < n ==> least(values, n).rank() <= (#[trigger] values[i]).rank()
                <= greatest(values, n).rank(),
        n > 0 ==> exists|i: int| 0 <= i < n && #[trigger] values[i] == least(values, n),
        n > 0 ==> exists|i: int| 0 <= i < n && #[trigger] values[i] == greatest(values, n),
        n == 0 ==> least(values, n) == (Real { bits: INFINITY_BITS }),
        n == 0 ==> greatest(values, n) == (Real { bits: NEGATIVE_INFINITY }),
    decreases n,
{
    if n > 0 {
        let m = (n - 1) as nat;
        law_extremes_bound_the_values(values, m);
        let v = values[n - 1];
        if m > 0 {
            let low = choose|i: int| 0 <= i < m && #[trigger] values[i] == least(values, m);
            let high = choose|i: int| 0 <= i < m && #[trigger] values[i] == greatest(values, m);
            assert(values[low].spec_is_finite() && values[high].spec_is_finite());
        }
        assert(v.spec_is_finite());
    }
}

/// The reported choice has the greatest mean, and of equal ones it is the first option.
pub proof fn law_best_place_is_greatest(means: Seq<Real>, n: nat)
    requires
        n <= means.len(),
        forall|i: int| 0 <= i < n ==> (#[trigger] means[i]).spec_is_finite(),
    ensures
        best_place(means, n) is Some <==> n > 0,
        best_place(means, n) matches Some(b) ==> 0 <= b < n && (forall|i: int|
            0 <= i < n ==> (#[trigger] means[i]).rank() <= means[b].rank()) && (forall|i: int|
            0 <= i < b ==> (#[trigger] means[i]).rank() < means[b].rank()),
    decreases n,
{
    if n > 0 {
        let m = (n - 1) as nat;
        law_best_place_is_greatest(means, m);
        assert(means[m as int].spec_is_finite());
        if best_place(means, m) is Some {
            assert(means[best_place(means, m)->0].spec_is_finite());
        }
    }
}

/// The answers to a question that can be read keep to its options.
pub proof fn law_draws_keep_to_the_options(body: Tree, id: Seq<char>, q: QuestionView)
    ensures
        draw_in(body, id, q) matches Ok(d) ==> answers(d, q),
{
}

/// What can be told of an answer from its report.
pub open spec fn same_numbers(q: QuestionView, d: DrawView, e: DrawView) -> bool {
    match q {
        QuestionView::Noul { .. } => real_tree(value_of(d)) == real_tree(value_of(e)),
        QuestionView::Score { .. } => real_tree(value_of(d)) == real_tree(value_of(e))
            && real_tree(confidence_of(d)) == real_tree(confidence_of(e)),
        QuestionView::Choice { .. } => {
            &&& options_of(d).map_values(|p: Real| real_tree(p)) == options_of(e).map_values(
                |p: Real| real_tree(p),
            )
            &&& choice_of(d) == choice_of(e)
            &&& real_tree(confidence_of(d)) == real_tree(confidence_of(e))
        },
    }
}

/// The numbers of every sample are reported beside what is made of them: reports on a
/// question that are the same come from the same answers, whatever the means and shares.
pub proof fn law_samples_survive_the_means(
    q: QuestionView,
    draws_a: Seq<DrawView>,
    draws_b: Seq<DrawView>,
    means_a: AveragesView,
    means_b: AveragesView,
    shares_a: Seq<Real>,
    shares_b: Seq<Real>,
)
    requires
        draws_a.len() == draws_b.len(),
        answer_report(q, draws_a, means_a, shares_a) == answer_report(
            q,
            draws_b,
            means_b,
            shares_b,
        ),
    ensures
        forall|s: int|
            0 <= s < draws_a.len() ==> same_numbers(q, #[trigger] draws_a[s], #[trigger] draws_b[s]),
{
    lemma_reported_samples(q, draws_a, means_a, shares_a);
    lemma_reported_samples(q, draws_b, means_b, shares_b);
    let fields = answer_report(q, draws_a, means_a, shares_a)->Object_0;
    assert forall|s: int| 0 <= s < draws_a.len() implies same_numbers(
        q,
        #[trigger] draws_a[s],
        #[trigger] draws_b[s],
    ) by {
        if q is Choice {
            assert(fields["values"@]->Array_0[s] is Object);
            assert(fields["choices"@]->Array_0[s] is Text);
        } else {
            assert(fields["values"@]->Array_0[s] == real_tree(value_of(draws_a[s])));
        }
        if !(q is Noul) {
            assert(fields["confidences"@]->Array_0[s] == real_tree(confidence_of(draws_a[s])));
        }
    }
}

/// Where the numbers of the samples stand in the report on a question.
proof fn lemma_reported_samples(
    q: QuestionView,
    draws: Seq<DrawView>,
    a: AveragesView,
    shares: Seq<Real>,
)
    ensures
        ({
            let fields = answer_report(q, draws, a, shares)->Object_0;
            let values = fields["values"@]->Array_0;
            let choices = fields["choices"@]->Array_0;
            let confidences = fields["confidences"@]->Array_0;
            &&& !(q is Choice) ==> (forall|s: int|
                0 <= s < draws.len() ==> #[trigger] values[s] == real_tree(value_of(draws[s])))
            &&& !(q is Noul) ==> (forall|s: int|
                0 <= s < draws.len() ==> #[trigger] confidences[s] == real_tree(
                    confidence_of(draws[s]),
                ))
            &&& q is Choice ==> (forall|s: int|
                0 <= s < draws.len() ==> #[trigger] values[s] == Tree::Object(
                    options_of(draws[s]).map_values(|p: Real| real_tree(p)),
                )) && (forall|s: int|
                0 <= s < draws.len() ==> #[trigger] choices[s] == Tree::Text(choice_of(draws[s])))
        }),
{
    reveal_strlit("type");
    reveal_strlit("mean");
    reveal_strlit("std");
    reveal_strlit("min");
    reveal_strlit("max");
    reveal_strlit("values");
    reveal_strlit("score_mean");
    reveal_strlit("score_std");
    reveal_strlit("score_min");
    reveal_strlit("score_max");
    reveal_strlit("confidence_mean");
    reveal_strlit("confidences");
    reveal_strlit("choice");
    reveal_strlit("choices");
    reveal_strlit("modal_share");
    reveal_strlit("probabilities");
    assert("values"@.len() == 6 && "choice"@.len() == 6 && "values"@[0] != "choice"@[0]);
    assert("choices"@.len() == 7);
    assert("confidences"@.len() == 11 && "modal_share"@.len() == 11);
    assert("confidences"@[0] != "modal_share"@[0]);
    let values = draws.map_values(|d: DrawView| value_of(d));
    let confidences = draws.map_values(|d: DrawView| confidence_of(d));
    let fields = answer_report(q, draws, a, shares)->Object_0;
    match q {
        QuestionView::Noul { .. } => {
            assert(fields["values"@] == Tree::Array(real_trees(values)));
        },
        QuestionView::Score { .. } => {
            assert(fields["values"@] == Tree::Array(real_trees(values)));
            assert(fields["confidences"@] == Tree::Array(real_trees(confidences)));
        },
        QuestionView::Choice { .. } => {
            assert(fields["values"@] == Tree::Array(sample_trees(draws)));
            assert(fields["choices"@] == Tree::Array(choice_trees(draws)));
            assert(fields["confidences"@] == Tree::Array(real_trees(confidences)));
        },
    }
}

/// The modal share is that of the mode: some choice is named as often as is counted, and no
/// choice is named more often.
pub proof fn law_mode_is_most_frequent(draws: Seq<DrawView>)
    requires
        forall|s: int| 0 <= s < draws.len() ==> (#[trigger] draws[s]) is Choice,
    ensures
        draws.len() > 0 ==> exists|s: int|
            0 <= s < draws.len() && times_chosen(
                draws,
                choice_of(#[trigger] draws[s]),
                draws.len(),
            ) == most_chosen(draws, draws.len()),
        forall|option: Seq<char>| #[trigger]
            times_chosen(draws, option, draws.len()) <= most_chosen(draws, draws.len()),
        most_chosen(draws, draws.len()) <= draws.len(),
{
    let n = draws.len();
    lemma_mode_below(draws, n, n);
    assert forall|option: Seq<char>| #[trigger] times_chosen(draws, option, n) <= most_chosen(
        draws,
        n,
    ) by {
        lemma_times_chosen(draws, option, n);
        if times_chosen(draws, option, n) > 0 {
            let s = choose|s: int| 0 <= s < n && choice_of(#[trigger] draws[s]) == option;
            assert(times_chosen(draws, choice_of(draws[s]), n) <= most_chosen(draws, n));
        }
    }
    if n > 0 {
        let s = choose|s: int|
            0 <= s < n && times_chosen(draws, choice_of(#[trigger] draws[s]), n) == most_chosen(
                draws,
                n,
            );
        lemma_times_chosen(draws, choice_of(draws[s]), n);
    }
}

proof fn lemma_mode_below(draws: Seq<DrawView>, n: nat, k: nat)
    requires
        k <= draws.len(),
    ensures
        forall|s: int|
            0 <= s < k ==> times_chosen(draws, choice_of(#[trigger] draws[s]), n)
                <= most_chosen_below(draws, n, k),
        k > 0 ==> exists|s: int|
            0 <= s < k && times_chosen(draws, choice_of(#[trigger] draws[s]), n)
                == most_chosen_below(draws, n, k),
    decreases k,
{
    if k > 0 {
        let m = (k - 1) as nat;
        lemma_mode_below(draws, n, m);
        let times = times_chosen(draws, choice_of(draws[m as int]), n);
        if m > 0 && times <= most_chosen_below(draws, n, m) {
            let s = choose|s: int|
                0 <= s < m && times_chosen(draws, choice_of(#[trigger] draws[s]), n)
                    == most_chosen_below(draws, n, m);
            assert(0 <= s < k && times_chosen(draws, choice_of(draws[s]), n) == most_chosen_below(
                draws,
                n,
                k,
            ));
        } else {
            assert(times_chosen(draws, choice_of(draws[m as int]), n) == most_chosen_below(
                draws,
                n,
                k,
            ));
        }
    }
}

proof fn lemma_times_chosen(draws: Seq<DrawView>, option: Seq<char>, n: nat)
    requires
        n <= draws.len(),
    ensures
        times_chosen(draws, option, n) <= n,
        times_chosen(draws, option, n) > 0 ==> exists|s: int|
            0 <= s < n && choice_of(#[trigger] draws[s]) == option,
    decreases n,
{
    if n > 0 {
        lemma_times_chosen(draws, option, (n - 1) as nat);
        if times_chosen(draws, option, n) > 0 {
            if times_chosen(draws, option, (n - 1) as nat) > 0 {
                let s = choose|s: int| 0 <= s < n - 1 && choice_of(#[trigger] draws[s]) == option;
                assert(0 <= s < n && choice_of(draws[s]) == option);
            } else {
                assert(choice_of(draws[n - 1]) == option);
            }
        }
    }
}

/// Each option's list holds the probabilities that it was given, one for each answer that
/// names it: no probability is lost and none made up.
pub proof fn law_option_values_are_complete(draws: Seq<DrawView>, n: nat, option: Seq<char>)
    requires
        n <= draws.len(),
    ensures
        option_values(draws, n).contains_key(option) <==> exists|s: int|
            0 <= s < n && options_of(#[trigger] draws[s]).contains_key(option),
        option_values(draws, n).contains_key(option) ==> option_values(draws, n)[option]
            == draws.take(n as int).filter(
            |d: DrawView| options_of(d).contains_key(option),
        ).map_values(|d: DrawView| options_of(d)[option]),
        !option_values(draws, n).contains_key(option) ==> draws.take(n as int).filter(
            |d: DrawView| options_of(d).contains_key(option),
        ).len() == 0,
    decreases n,
{
    let names = |d: DrawView| options_of(d).contains_key(option);
    let gives = |d: DrawView| options_of(d)[option];
    reveal(Seq::filter);
    if n > 0 {
        let m = (n - 1) as nat;
        law_option_values_are_complete(draws, m, option);
        assert(draws.take(n as int).drop_last() =~= draws.take(m as int));
        assert(draws.take(n as int).last() == draws[m as int]);
        let was = draws.take(m as int).filter(names);
        if names(draws[m as int]) {
            assert(was.push(draws[m as int]).map_values(gives) =~= was.map_values(gives).push(
                gives(draws[m as int]),
            ));
            if !option_values(draws, m).contains_key(option) {
                assert(was.map_values(gives) =~= Seq::empty());
            }
        }
        if option_values(draws, m).contains_key(option) {
            let s = choose|s: int| 0 <= s < m && options_of(#[trigger] draws[s]).contains_key(option);
            assert(0 <= s < n && options_of(draws[s]).contains_key(option));
        }
    }
}

/// Five samples are drawn unless the caller says, and otherwise as many as are asked for;
/// fewer than 2 and more than 20 are refused.
pub proof fn law_samples_within_limits(asked: Option<u32>)
    ensures
        asked is None ==> spec_samples(asked) == 5 && samples_fault(asked) is None,
        asked matches Some(n) ==> {
            &&& spec_samples(asked) == n
            &&& samples_fault(asked) is None <==> 2 <= n <= 20
            &&& !(2 <= n <= 20) ==> samples_fault(asked) == Some(
                "'samples' is "@ + decimal(n as nat)
                    + "; a stability check draws between 2 and 20 samples"@,
            )
        },
{
}

/// A check is refused where its questions are or where the number of samples is, and first
/// for the questions.
pub proof fn law_questions_are_refused_first(
    questions: Map<Seq<char>, QuestionView>,
    samples: Option<u32>,
)
    ensures
        stability_fault(questions, samples) is None <==> questions_fault(questions) is None
            && samples_fault(samples) is None,
        questions_fault(questions) is Some ==> stability_fault(questions, samples)
            == questions_fault(questions),
        questions_fault(questions) is None ==> stability_fault(questions, samples)
            == samples_fault(samples),
{
}

/// The state of a sample that is an object holds all that the state holds, and besides it the
/// number of the sample and the time, with a dash between them; any other state is sent as it
/// is.
pub proof fn law_samples_are_marked(state: serde_json::Value, sample: nat, nanos: nat)
    ensures
        object_fields(state) is None ==> sample_state(state, sample, nanos) == Tree::Given(state),
        object_fields(state) matches Some(fields) ==> {
            let sent = sample_state(state, sample, nanos);
            &&& holds(
                sent,
                "_stability_sample"@,
                Tree::Text(decimal(sample) + "-"@ + decimal(nanos)),
            )
            &&& forall|name: Seq<char>| #[trigger]
                has_field(sent, name) ==> name == "_stability_sample"@ || exists|i: int|
                    0 <= i < fields.len() && (#[trigger] fields[i]).0 == name
            &&& forall|i: int|
                0 <= i < fields.len() && (#[trigger] fields[i]).0 != "_stability_sample"@ && (
                forall|j: int| i < j < fields.len() ==> (#[trigger] fields[j]).0 != fields[i].0)
                    ==> holds(sent, fields[i].0, Tree::Given(fields[i].1))
        },
{
    if object_fields(state) is Some {
        let fields = object_fields(state)->0;
        lemma_given_fields(fields);
        let sent = sample_state(state, sample, nanos);
        assert forall|name: Seq<char>| #[trigger]
            has_field(sent, name) implies name == "_stability_sample"@ || exists|i: int|
            0 <= i < fields.len() && (#[trigger] fields[i]).0 == name by {
            if name != "_stability_sample"@ {
                assert(given_map(fields).contains_key(name));
            }
        }
    }
}

proof fn lemma_given_fields(fields: Seq<(Seq<char>, serde_json::Value)>)
    ensures
        forall|name: Seq<char>| #[trigger]
            given_map(fields).contains_key(name) ==> exists|i: int|
                0 <= i < fields.len() && (#[trigger] fields[i]).0 == name,
        forall|i: int|
            0 <= i < fields.len() ==> given_map(fields).contains_key((#[trigger] fields[i]).0),
        forall|i: int|
            0 <= i < fields.len() && (forall|j: int|
                i < j < fields.len() ==> (#[trigger] fields[j]).0 != (#[trigger] fields[i]).0)
                ==> given_map(fields)[fields[i].0] == Tree::Given(fields[i].1),
    decreases fields.len(),
{
    if fields.len() > 0 {
        let rest = fields.drop_last();
        lemma_given_fields(rest);
        assert forall|name: Seq<char>| #[trigger]
            given_map(fields).contains_key(name) implies exists|i: int|
            0 <= i < fields.len() && (#[trigger] fields[i]).0 == name by {
            if name == fields.last().0 {
                assert(fields[fields.len() - 1].0 == name);
            } else {
                assert(given_map(rest).contains_key(name));
                let i = choose|i: int| 0 <= i < rest.len() && (#[trigger] rest[i]).0 == name;
                assert(fields[i].0 == name);
            }
        }
        assert forall|i: int| 0 <= i < fields.len() implies given_map(fields).contains_key(
            (#[trigger] fields[i]).0,
        ) by {
            if i < rest.len() {
                assert(rest[i] == fields[i]);
            }
        }
        assert forall|i: int|
            0 <= i < fields.len() && (forall|j: int|
                i < j < fields.len() ==> (#[trigger] fields[j]).0 != (
                #[trigger] fields[i]).0) implies given_map(fields)[fields[i].0] == Tree::Given(
            fields[i].1,
        ) by {
            if i < rest.len() {
                assert(fields[fields.len() - 1].0 != fields[i].0);
                assert(rest[i] == fields[i]);
                assert forall|j: int| i < j < rest.len() implies (#[trigger] rest[j]).0
                    != rest[i].0 by {
                    assert(fields[j].0 != fields[i].0);
                }
            }
        }
    }
}

/// An answer is read as the question asks for it: a probability, a score with a confidence,
/// or a choice among the options with its probabilities and a confidence; each exactly where
/// the response gives it under the question's name.
pub proof fn law_draws_are_read(body: Tree, id: Seq<char>, q: QuestionView, d: DrawView)
    requires
        draw_in(body, id, q) == Ok::<DrawView, Fault>(d),
    ensures
        answered(body, id),
        q is Noul ==> d is Noul && has_field(answer_at(body, id), "noul"@) && spec_as_real(
            at(answer_at(body, id), "noul"@),
        ) == Some(d->probability),
        q is Score ==> d is Score && has_field(answer_at(body, id), "score"@) && spec_as_real(
            at(answer_at(body, id), "score"@),
        ) == Some(d->score) && has_field(answer_at(body, id), "confidence"@) && spec_as_real(
            at(answer_at(body, id), "confidence"@),
        ) == Some(d->Score_confidence),
        q matches QuestionView::Choice { criteria, .. } ==> {
            let answer = answer_at(body, id);
            &&& d is Choice
            &&& holds(answer, "choice"@, Tree::Text(d->choice))
            &&& criteria.contains_key(d->choice)
            &&& has_field(answer, "confidence"@)
            &&& spec_as_real(at(answer, "confidence"@)) == Some(d->Choice_confidence)
            &&& has_field(answer, "probabilities"@)
            &&& fields_are(at(answer, "probabilities"@), d->probabilities.dom())
            &&& forall|k: Seq<char>| #[trigger]
                d->probabilities.contains_key(k) ==> criteria.contains_key(k) && spec_as_real(
                    at(at(answer, "probabilities"@), k),
                ) == Some(d->probabilities[k])
        },
{
    match q {
        QuestionView::Noul { .. } => {
            law_numbers_in_answers(body, id, d->probability);
        },
        QuestionView::Score { .. } => {
            law_numbers_in_answers(body, id, d->score);
            law_numbers_in_answers(body, id, d->Score_confidence);
        },
        QuestionView::Choice { criteria, .. } => {
            law_choices_in_answers(body, id, criteria.dom(), d->choice);
            law_probabilities_in_answers(body, id, criteria.dom(), d->probabilities);
            law_numbers_in_answers(body, id, d->Choice_confidence);
            assert forall|k: Seq<char>| #[trigger]
                d->probabilities.contains_key(k) implies criteria.contains_key(k) by {
                assert(d->probabilities.dom().contains(k));
                assert(criteria.dom().contains(k));
            }
        },
    }
}

/// What is reported of a yes/no question: the mean and the spread that were computed, the
/// least and the greatest probability, and the probability of each sample in its order.
pub proof fn law_yes_and_no_are_reported(
    instructions: Tree,
    meanings: Option<NoulCriteriaView>,
    draws: Seq<DrawView>,
    a: AveragesView,
    shares: Seq<Real>,
)
    requires
        forall|s: int| 0 <= s < draws.len() ==> (#[trigger] draws[s]) is Noul,
    ensures
        ({
            let q = QuestionView::Noul { instructions, criteria: meanings };
            let report = answer_report(q, draws, a, shares);
            let values = at(report, "values"@)->Array_0;
            let drawn = Seq::new(draws.len(), |s: int| draws[s]->probability);
            &&& fields_are(
                report,
                set!["type"@, "mean"@, "std"@, "min"@, "max"@, "values"@],
            )
            &&& holds(report, "type"@, Tree::Text("noul"@))
            &&& holds(report, "mean"@, real_tree(a.mean))
            &&& holds(report, "std"@, real_tree(a.std))
            &&& holds(report, "min"@, real_tree(least(drawn, drawn.len())))
            &&& holds(report, "max"@, real_tree(greatest(drawn, drawn.len())))
            &&& at(report, "values"@) is Array
            &&& values.len() == draws.len()
            &&& forall|s: int|
                0 <= s < draws.len() ==> #[trigger] values[s] == real_tree(draws[s]->probability)
        }),
{
    reveal_strlit("type");
    reveal_strlit("mean");
    reveal_strlit("std");
    reveal_strlit("min");
    reveal_strlit("max");
    reveal_strlit("values");
    assert("type"@.len() == 4);
    assert("mean"@.len() == 4);
    assert("std"@.len() == 3);
    assert("min"@.len() == 3);
    assert("max"@.len() == 3);
    assert("values"@.len() == 6);
    assert("type"@[0] != "mean"@[0]);
    assert("std"@[0] != "min"@[0]);
    assert("std"@[0] != "max"@[0]);
    assert("min"@[1] != "max"@[1]);
    let q = QuestionView::Noul { instructions, criteria: meanings };
    let report = answer_report(q, draws, a, shares);
    assert(report->Object_0.dom()
        =~= set!["type"@, "mean"@, "std"@, "min"@, "max"@, "values"@]);
    let drawn = Seq::new(draws.len(), |s: int| draws[s]->probability);
    assert(draws.map_values(|d: DrawView| value_of(d)) =~= drawn);
}

/// What is reported of a score: the mean and the spread that were computed, the least and the
/// greatest score, the mean confidence, and the score and the confidence of each sample in
/// its order.
pub proof fn law_scores_are_reported(
    instructions: Tree,
    levels: Seq<Tree>,
    draws: Seq<DrawView>,
    a: AveragesView,
    shares: Seq<Real>,
)
    requires
        forall|s: int| 0 <= s < draws.len() ==> (#[trigger] draws[s]) is Score,
    ensures
        ({
            let q = QuestionView::Score { instructions, criteria: levels };
            let report = answer_report(q, draws, a, shares);
            let values = at(report, "values"@)->Array_0;
            let confidences = at(report, "confidences"@)->Array_0;
            let drawn = Seq::new(draws.len(), |s: int| draws[s]->score);
            &&& fields_are(
                report,
                set![
                    "type"@,
                    "score_mean"@,
                    "score_std"@,
                    "score_min"@,
                    "score_max"@,
                    "confidence_mean"@,
                    "values"@,
                    "confidences"@,
                ],
            )
            &&& holds(report, "type"@, Tree::Text("score"@))
            &&& holds(report, "score_mean"@, real_tree(a.mean))
            &&& holds(report, "score_std"@, real_tree(a.std))
            &&& holds(report, "score_min"@, real_tree(least(drawn, drawn.len())))
            &&& holds(report, "score_max"@, real_tree(greatest(drawn, drawn.len())))
            &&& holds(report, "confidence_mean"@, real_tree(a.confidence_mean))
            &&& at(report, "values"@) is Array
            &&& values.len() == draws.len()
            &&& forall|s: int|
                0 <= s < draws.len() ==> #[trigger] values[s] == real_tree(draws[s]->score)
            &&& at(report, "confidences"@) is Array
            &&& confidences.len() == draws.len()
            &&& forall|s: int|
                0 <= s < draws.len() ==> #[trigger] confidences[s] == real_tree(
                    draws[s]->Score_confidence,
                )
        }),
{
    reveal_strlit("type");
    reveal_strlit("score_mean");
    reveal_strlit("score_std");
    reveal_strlit("score_min");
    reveal_strlit("score_max");
    reveal_strlit("confidence_mean");
    reveal_strlit("values");
    reveal_strlit("confidences");
    assert("type"@.len() == 4);
    assert("score_mean"@.len() == 10);
    assert("score_std"@.len() == 9);
    assert("score_min"@.len() == 9);
    assert("score_max"@.len() == 9);
    assert("confidence_mean"@.len() == 15);
    assert("values"@.len() == 6);
    assert("confidences"@.len() == 11);
    assert("score_std"@[6] != "score_min"@[6]);
    assert("score_std"@[6] != "score_max"@[6]);
    assert("score_min"@[7] != "score_max"@[7]);
    let q = QuestionView::Score { instructions, criteria: levels };
    let report = answer_report(q, draws, a, shares);
    assert(report->Object_0.dom() =~= set![
        "type"@,
        "score_mean"@,
        "score_std"@,
        "score_min"@,
        "score_max"@,
        "confidence_mean"@,
        "values"@,
        "confidences"@,
    ]);
    let drawn = Seq::new(draws.len(), |s: int| draws[s]->score);
    assert(draws.map_values(|d: DrawView| value_of(d)) =~= drawn);
}

/// What is reported of a choice: the option with the greatest mean probability, the share of
/// the option that was chosen most often, the mean probability of each option that was
/// given one, the mean confidence, and of each sample, in its order, the probabilities, the
/// choice and the confidence.
pub proof fn law_choices_are_reported(
    instructions: Tree,
    options: Map<Seq<char>, Tree>,
    draws: Seq<DrawView>,
    a: AveragesView,
    shares: Seq<Real>,
)
    requires
        forall|s: int| 0 <= s < draws.len() ==> (#[trigger] draws[s]) is Choice,
        option_values(draws, draws.len()).dom().finite(),
        a.option_means.len() == option_values(draws, draws.len()).len(),
    ensures
        ({
            let q = QuestionView::Choice { instructions, criteria: options };
            let report = answer_report(q, draws, a, shares);
            let given = in_order(option_values(draws, draws.len()).dom());
            let means = at(report, "probabilities"@);
            let values = at(report, "values"@)->Array_0;
            let choices = at(report, "choices"@)->Array_0;
            let confidences = at(report, "confidences"@)->Array_0;
            &&& fields_are(
                report,
                set![
                    "type"@,
                    "choice"@,
                    "modal_share"@,
                    "probabilities"@,
                    "confidence_mean"@,
                    "values"@,
                    "choices"@,
                    "confidences"@,
                ],
            )
            &&& holds(report, "type"@, Tree::Text("choice"@))
            &&& best_place(a.option_means, a.option_means.len()) matches Some(b) ==> holds(
                report,
                "choice"@,
                Tree::Text(given[b]),
            )
            &&& holds(
                report,
                "modal_share"@,
                real_tree(shares[most_chosen(draws, draws.len()) as int]),
            )
            &&& fields_are(means, option_values(draws, draws.len()).dom())
            &&& forall|k: int|
                0 <= k < given.len() ==> holds(
                    means,
                    #[trigger] given[k],
                    real_tree(a.option_means[k]),
                )
            &&& holds(report, "confidence_mean"@, real_tree(a.confidence_mean))
            &&& at(report, "values"@) is Array
            &&& values.len() == draws.len()
            &&& forall|s: int|
                0 <= s < draws.len() ==> fields_are(
                    #[trigger] values[s],
                    draws[s]->probabilities.dom(),
                )
            &&& forall|s: int, k: Seq<char>|
                0 <= s < draws.len() && #[trigger] draws[s]->probabilities.contains_key(k)
                    ==> holds(values[s], k, real_tree(draws[s]->probabilities[k]))
            &&& at(report, "choices"@) is Array
            &&& choices.len() == draws.len()
            &&& forall|s: int|
                0 <= s < draws.len() ==> #[trigger] choices[s] == Tree::Text(draws[s]->choice)
            &&& at(report, "confidences"@) is Array
            &&& confidences.len() == draws.len()
            &&& forall|s: int|
                0 <= s < draws.len() ==> #[trigger] confidences[s] == real_tree(
                    draws[s]->Choice_confidence,
                )
        }),
{
    reveal_strlit("type");
    reveal_strlit("choice");
    reveal_strlit("modal_share");
    reveal_strlit("probabilities");
    reveal_strlit("confidence_mean");
    reveal_strlit("values");
    reveal_strlit("choices");
    reveal_strlit("confidences");
    assert("type"@.len() == 4);
    assert("choice"@.len() == 6);
    assert("modal_share"@.len() == 11);
    assert("probabilities"@.len() == 13);
    assert("confidence_mean"@.len() == 15);
    assert("values"@.len() == 6);
    assert("choices"@.len() == 7);
    assert("confidences"@.len() == 11);
    assert("choice"@[0] != "values"@[0]);
    assert("modal_share"@[0] != "confidences"@[0]);
    let q = QuestionView::Choice { instructions, criteria: options };
    let report = answer_report(q, draws, a, shares);
    assert(report->Object_0.dom() =~= set![
        "type"@,
        "choice"@,
        "modal_share"@,
        "probabilities"@,
        "confidence_mean"@,
        "values"@,
        "choices"@,
        "confidences"@,
    ]);
    let all = option_values(draws, draws.len()).dom();
    let given = in_order(all);
    lemma_in_order(all);
    lemma_ascending_distinct(given);
    given.unique_seq_to_set();
    lemma_means_by_option(given, a.option_means, given.len());
    let means = at(report, "probabilities"@);
    assert(means->Object_0.dom() =~= all) by {
        assert forall|k: Seq<char>| means->Object_0.dom().contains(k) <==> all.contains(k) by {
            assert(means->Object_0.contains_key(k) <==> exists|i: int|
                0 <= i < given.len() && #[trigger] given[i] == k);
            assert(given.to_set().contains(k) <==> all.contains(k));
        }
    }
    let values = at(report, "values"@)->Array_0;
    assert forall|s: int| 0 <= s < draws.len() implies #[trigger] values[s] == Tree::Object(
        draws[s]->probabilities.map_values(|p: Real| real_tree(p)),
    ) && fields_are(values[s], draws[s]->probabilities.dom()) by {
        assert(options_of(draws[s]) == draws[s]->probabilities);
        assert(values[s]->Object_0.dom() =~= draws[s]->probabilities.dom());
    }
    assert forall|s: int, k: Seq<char>|
        0 <= s < draws.len() && #[trigger] draws[s]->probabilities.contains_key(k) implies holds(
        values[s],
        k,
        real_tree(draws[s]->probabilities[k]),
    ) by {
        assert(values[s] == Tree::Object(
            draws[s]->probabilities.map_values(|p: Real| real_tree(p)),
        ));
    }
}

proof fn lemma_means_by_option(options: Seq<Seq<char>>, means: Seq<Real>, n: nat)
    requires
        options.no_duplicates(),
        n <= options.len(),
    ensures
        forall|option: Seq<char>| #[trigger]
            means_map(options, means, n).contains_key(option) <==> exists|i: int|
                0 <= i < n && #[trigger] options[i] == option,
        forall|i: int|
            0 <= i < n ==> means_map(options, means, n).contains_key(#[trigger] options[i])
                && means_map(options, means, n)[options[i]] == real_tree(means[i]),
    decreases n,
{
    if n > 0 {
        lemma_means_by_option(options, means, (n - 1) as nat);
        let before = means_map(options, means, (n - 1) as nat);
        assert forall|option: Seq<char>| #[trigger]
            means_map(options, means, n).contains_key(option) <==> exists|i: int|
                0 <= i < n && #[trigger] options[i] == option by {
            assert(means_map(options, means, n).contains_key(option) <==> before.contains_key(
                option,
            ) || option == options[n - 1]);
        }
    }
}

/// An option is chosen as often as there are samples that choose it.
pub proof fn law_choices_are_counted(draws: Seq<DrawView>, option: Seq<char>, n: nat)
    requires
        n <= draws.len(),
    ensures
        times_chosen(draws, option, n) == draws.take(n as int).filter(
            |d: DrawView| d is Choice && d->choice == option,
        ).len(),
    decreases n,
{
    reveal(Seq::filter);
    if n > 0 {
        law_choices_are_counted(draws, option, (n - 1) as nat);
        assert(draws.take(n as int).drop_last() =~= draws.take(n - 1));
        assert(draws.take(n as int).last() == draws[n - 1]);
    }
}

/// The report gives the number of samples, and under the id of each question, and under
/// nothing else, what is reported of its own answers, one from each sample in turn.
pub proof fn law_questions_are_reported(
    questions: Map<Seq<char>, QuestionView>,
    drawn: Seq<Seq<DrawView>>,
    averages: Seq<AveragesView>,
    shares: Seq<Real>,
    i: int,
)
    requires
        questions.dom().finite(),
        0 <= i < in_order(questions.dom()).len(),
    ensures
        ({
            let report = stability_report(questions, drawn, averages, shares);
            let ids = in_order(questions.dom());
            let replies = at(report, "answers"@);
            &&& fields_are(report, set!["samples"@, "answers"@])
            &&& holds(report, "samples"@, Tree::Integer(drawn.len() as int))
            &&& fields_are(replies, questions.dom())
            &&& holds(
                replies,
                ids[i],
                answer_report(
                    questions[ids[i]],
                    Seq::new(drawn.len(), |s: int| drawn[s][i]),
                    averages[i],
                    shares,
                ),
            )
        }),
{
    reveal_strlit("samples");
    reveal_strlit("answers");
    assert("samples"@.len() == 7);
    assert("answers"@.len() == 7);
    assert("samples"@[0] != "answers"@[0]);
    let report = stability_report(questions, drawn, averages, shares);
    assert(report->Object_0.dom() =~= set!["samples"@, "answers"@]);
    let ids = in_order(questions.dom());
    lemma_in_order(questions.dom());
    lemma_ascending_distinct(ids);
    lemma_answers_by_id(ids, questions, drawn, averages, shares, ids.len());
    let replies = at(report, "answers"@);
    assert(replies->Object_0.dom() =~= questions.dom()) by {
        assert forall|id: Seq<char>| replies->Object_0.dom().contains(id)
            <==> questions.dom().contains(id) by {
            assert(replies->Object_0.contains_key(id) <==> exists|k: int|
                0 <= k < ids.len() && #[trigger] ids[k] == id);
            assert(ids.to_set().contains(id) <==> questions.dom().contains(id));
        }
    }
    assert(column(drawn, i) =~= Seq::new(drawn.len(), |s: int| drawn[s][i]));
}

proof fn lemma_answers_by_id(
    ids: Seq<Seq<char>>,
    questions: Map<Seq<char>, QuestionView>,
    drawn: Seq<Seq<DrawView>>,
    averages: Seq<AveragesView>,
    shares: Seq<Real>,
    n: nat,
)
    requires
        ids.no_duplicates(),
        n <= ids.len(),
    ensures
        ({
            let map = answers_map(ids, questions, drawn, averages, shares, n);
            &&& forall|id: Seq<char>| #[trigger]
                map.contains_key(id) <==> exists|k: int| 0 <= k < n && #[trigger] ids[k] == id
            &&& forall|k: int|
                0 <= k < n ==> map.contains_key(#[trigger] ids[k]) && map[ids[k]] == answer_report(
                    questions[ids[k]],
                    column(drawn, k),
                    averages[k],
                    shares,
                )
        }),
    decreases n,
{
    if n > 0 {
        lemma_answers_by_id(ids, questions, drawn, averages, shares, (n - 1) as nat);
        let before = answers_map(ids, questions, drawn, averages, shares, (n - 1) as nat);
        let map = answers_map(ids, questions, drawn, averages, shares, n);
        assert forall|id: Seq<char>| #[trigger]
            map.contains_key(id) <==> exists|k: int| 0 <= k < n && #[trigger] ids[k] == id by {
            assert(map.contains_key(id) <==> before.contains_key(id) || id == ids[n - 1]);
        }
    }
}

/// What is handed out to be averaged is what the samples gave: of a yes/no question the
/// probabilities, of a score the scores and the confidences, of a choice the confidences.
pub proof fn law_tallies_hold_the_samples(tally: Tally, q: QuestionView, draws: Seq<DrawView>)
    requires
        tallied(tally, q, draws),
        forall|s: int| 0 <= s < draws.len() ==> answers(#[trigger] draws[s], q),
    ensures
        q is Noul ==> tally.values@.len() == draws.len() && tally.confidences@.len() == 0 && (
        forall|s: int|
            0 <= s < draws.len() ==> #[trigger] tally.values@[s] == draws[s]->probability),
        q is Score ==> tally.values@.len() == draws.len() && tally.confidences@.len()
            == draws.len() && (forall|s: int|
            0 <= s < draws.len() ==> #[trigger] tally.values@[s] == draws[s]->score) && (forall|
            s: int,
        |
            0 <= s < draws.len() ==> #[trigger] tally.confidences@[s] == draws[s]->Score_confidence),
        q is Choice ==> tally.values@.len() == 0 && tally.confidences@.len() == draws.len() && (
        forall|s: int|
            0 <= s < draws.len() ==> #[trigger] tally.confidences@[s]
                == draws[s]->Choice_confidence),
{
    assert forall|s: int| 0 <= s < draws.len() implies (q is Noul ==> draws[s] is Noul) && (q
        is Score ==> draws[s] is Score) && (q is Choice ==> #[trigger] draws[s] is Choice) by {
        assert(answers(draws[s], q));
    }
}

/// The option that is reported is one whose mean no other exceeds, and of several such the
/// first in the order of the names; without options it is an empty text.
pub proof fn law_best_option_has_the_greatest_mean(options: Seq<Seq<char>>, means: Seq<Real>)
    requires
        options.len() == means.len(),
        forall|i: int| 0 <= i < means.len() ==> (#[trigger] means[i]).spec_is_finite(),
    ensures
        means.len() == 0 ==> best_option(options, means).len() == 0,
        means.len() > 0 ==> exists|b: int|
            0 <= b < means.len() && best_option(options, means) == #[trigger] options[b] && (forall|
                i: int,
            |
                0 <= i < means.len() ==> (#[trigger] means[i]).rank() <= means[b].rank()) && (
            forall|i: int| 0 <= i < b ==> (#[trigger] means[i]).rank() < means[b].rank()),
{
    law_best_place_is_greatest(means, means.len());
    if means.len() > 0 {
        let b = best_place(means, means.len())->0;
        assert(best_option(options, means) == options[b]);
    }
}

/// An answer is read wherever the response gives, under the question's name, all that the
/// question asks for.
pub proof fn law_complete_answers_are_read(body: Tree, id: Seq<char>, q: QuestionView, d: DrawView)
    requires
        answered(body, id),
        answers(d, q),
        d matches DrawView::Noul { probability } ==> noul_in(body, id) == Ok::<Real, Fault>(
            probability,
        ),
        d matches DrawView::Score { score, confidence } ==> score_in(body, id) == Ok::<
            Real,
            Fault,
        >(score) && confidence_in(body, id) == Ok::<Real, Fault>(confidence),
        d matches DrawView::Choice { choice, probabilities, confidence } ==> choice_in(body, id)
            == Ok::<Seq<char>, Fault>(choice) && probabilities_in(body, id) == Ok::<
            Map<Seq<char>, Real>,
            Fault,
        >(probabilities) && confidence_in(body, id) == Ok::<Real, Fault>(confidence),
    ensures
        draw_in(body, id, q) == Ok::<DrawView, Fault>(d),
{
    match q {
        QuestionView::Choice { criteria, .. } => {
            law_choices_in_answers(body, id, criteria.dom(), d->choice);
            law_probabilities_in_answers(body, id, criteria.dom(), d->probabilities);
            assert forall|k: Seq<char>| d->probabilities.dom().contains(k) implies criteria.dom()
                .contains(k) by {
                assert(d->probabilities.contains_key(k));
            }
            assert(d->probabilities.dom() <= criteria.dom());
        },
        _ => {},
    }
}

/// An answer fits its question exactly where it is of its kind and names only options that
/// were offered.
pub proof fn law_answers_fit_their_questions(d: DrawView, q: QuestionView)
    ensures
        q is Noul ==> (answers(d, q) <==> d is Noul),
        q is Score ==> (answers(d, q) <==> d is Score),
        q matches QuestionView::Choice { criteria, .. } ==> (answers(d, q) <==> d is Choice
            && criteria.contains_key(d->choice) && d->probabilities.dom() <= criteria.dom()),
{
    if d is Choice && q is Choice {
        let criteria = q->Choice_criteria;
        if d->probabilities.dom() <= criteria.dom() {
            assert forall|k: Seq<char>| #[trigger]
                d->probabilities.contains_key(k) implies criteria.dom().contains(k) by {
                assert(d->probabilities.dom().contains(k));
            }
        }
        if all_offered(d->probabilities, criteria.dom()) {
            assert forall|k: Seq<char>| d->probabilities.dom().contains(k) implies criteria.dom()
                .contains(k) by {
                assert(d->probabilities.contains_key(k));
            }
        }
    }
}

/// What is kept of an answer is what it says, and so with averages.
pub proof fn law_draws_say_what_they_hold(d: Draw, a: Averages)
    ensures
        d matches Draw::Noul { probability } ==> d@ == (DrawView::Noul { probability }),
        d matches Draw::Score { score, confidence } ==> d@ == (DrawView::Score {
            score,
            confidence,
        }),
        d matches Draw::Choice { choice, probabilities, confidence } ==> d@ == (DrawView::Choice {
            choice: choice@,
            probabilities: probabilities@,
            confidence,
        }),
        a@.mean == a.mean,
        a@.std == a.std,
        a@.confidence_mean == a.confidence_mean,
        a@.option_means == a.option_means@,
{
}

/// A stability check begins with what the caller gives: the state, the questions, as many
/// samples as are asked for or five, and the model or `jev-latest`; and with nothing drawn.
pub proof fn law_stability_checks_begin_as_asked(
    args: StabilityCheckArgs,
    r: Result<StabilityRun, ToolError>,
)
    requires
        call_ensures(stability_check, (args,), r),
    ensures
        r is Ok <==> questions_fault(args.questions@) is None && match args.samples {
            Some(n) => 2 <= n <= 20,
            None => true,
        },
        r matches Ok(run) ==> {
            &&& run.state == args.state
            &&& run.questions == args.questions
            &&& args.samples matches Some(n) ==> run.samples == n
            &&& args.samples is None ==> run.samples == 5
            &&& run.drawn@.len() == 0
            &&& model_follows(args.model, run.model@)
        },
        r matches Err(e) ==> e@ is InvalidParams,
{
    law_samples_within_limits(args.samples);
    law_questions_are_refused_first(args.questions@, args.samples);
}

/// Each sample is a call of its own, with all questions, marked with its number; there is
/// none once all samples are drawn.
pub proof fn law_samples_are_drawn_in_turn(run: StabilityRun, nanos: u32, body: Json)
    requires
        call_ensures(StabilityRun::call_at, (&run, nanos), body),
    ensures
        holds(body@, "model"@, Tree::Text(run.model@)),
        fields_are(at(body@, "questions"@), run.questions@.dom()),
        forall|id: Seq<char>| #[trigger]
            run.questions@.contains_key(id) ==> holds(
                at(body@, "questions"@),
                id,
                question_tree(run.questions@[id]),
            ),
        object_fields(run.state) is None ==> holds(body@, "state"@, Tree::Given(run.state)),
        object_fields(run.state) is Some ==> holds(
            at(body@, "state"@),
            "_stability_sample"@,
            Tree::Text(decimal(run.drawn@.len()) + "-"@ + decimal(nanos as nat)),
        ),
{
    let state = sample_state(run.state, run.drawn@.len(), nanos as nat);
    law_calls_hold_what_they_ask(state, run.questions@, run.model@);
    law_samples_are_marked(run.state, run.drawn@.len(), nanos as nat);
}

/// A call is still to be made exactly while fewer samples are drawn than are asked for.
pub proof fn law_all_samples_are_drawn(run: StabilityRun, r: Option<Json>)
    requires
        call_ensures(StabilityRun::next_call, (&run,), r),
    ensures
        r is Some <==> run.drawn@.len() < run.samples,
        r matches Some(body) ==> holds(body@, "model"@, Tree::Text(run.model@)) && fields_are(
            at(body@, "questions"@),
            run.questions@.dom(),
        ),
{
    if r is Some {
        let body = r->0@;
        let nanos = choose|nanos: nat|
            nanos < NANOS_PER_SECOND && body == call_tree(
                #[trigger] sample_state(run.state, run.drawn@.len(), nanos),
                run.questions@,
                run.model@,
            );
        law_calls_hold_what_they_ask(
            sample_state(run.state, run.drawn@.len(), nanos),
            run.questions@,
            run.model@,
        );
    }
}

/// The report is on the run's own samples: how many there are, and under the id of each
/// question what is reported of its answers.
pub proof fn law_stability_checks_end_in_a_report(
    run: StabilityRun,
    averages: Vec<Averages>,
    shares: Vec<Real>,
    r: Json,
    i: int,
)
    requires
        run.wf(),
        call_ensures(StabilityRun::report, (&run, &averages, &shares), r),
        averages@.len() == run.ids().len(),
        0 <= i < run.ids().len(),
    ensures
        holds(r@, "samples"@, Tree::Integer(run.drawn@.len() as int)),
        fields_are(at(r@, "answers"@), run.questions@.dom()),
        holds(
            at(r@, "answers"@),
            run.ids()[i],
            answer_report(
                run.questions@[run.ids()[i]],
                Seq::new(run.drawn@.len(), |s: int| seen(run.drawn@[s]@)[i]),
                averages@[i]@,
                shares@,
            ),
        ),
{
    let drawn = all_seen(run.drawn@);
    law_questions_are_reported(run.questions@, drawn, averaged(averages@), shares@, i);
    assert(Seq::new(drawn.len(), |s: int| drawn[s][i]) =~= Seq::new(
        run.drawn@.len(),
        |s: int| seen(run.drawn@[s]@)[i],
    ));
}

/// A response is taken in exactly where it answers every question, and then as one more
/// sample after those that were drawn, each answer at its question's place; otherwise nothing
/// changes.
pub proof fn law_samples_are_taken_in(
    run: &mut StabilityRun,
    body: Json,
    r: Result<(), ToolError>,
)
    requires
        old(run).wf(),
        old(run).pending(),
        call_ensures(StabilityRun::accept, (run, &body), r),
    ensures
        ({
            let ids = in_order(old(run).questions@.dom());
            let questions = old(run).questions@;
            let n = old(run).drawn@.len() as int;
            &&& r is Ok <==> (forall|i: int|
                0 <= i < ids.len() ==> draw_in(body@, #[trigger] ids[i], questions[ids[i]]) is Ok)
            &&& r is Ok ==> {
                &&& final(run).drawn@.len() == n + 1
                &&& forall|s: int|
                    0 <= s < n ==> seen((#[trigger] final(run).drawn@[s])@) == seen(
                        old(run).drawn@[s]@,
                    )
                &&& final(run).drawn@[n]@.len() == ids.len()
                &&& forall|i: int|
                    0 <= i < ids.len() ==> draw_in(body@, #[trigger] ids[i], questions[ids[i]])
                        == Ok::<DrawView, Fault>(final(run).drawn@[n]@[i]@)
            }
        }),
        final(run).state == old(run).state,
        final(run).questions == old(run).questions,
        final(run).samples == old(run).samples,
        final(run).model == old(run).model,
        r is Err ==> *final(run) == *old(run),
{
    let ids = old(run).ids();
    let questions = old(run).questions@;
    let reading = draw_reading(ids, questions);
    law_answers_are_read_in_turn(body@, ids.len(), reading);
    assert forall|i: nat| i < ids.len() implies #[trigger] reading(body@, i) == draw_in(
        body@,
        ids[i as int],
        questions[ids[i as int]],
    ) by {}
    assert forall|i: int| 0 <= i < ids.len() implies draw_in(
        body@,
        #[trigger] ids[i],
        questions[ids[i]],
    ) == reading(body@, i as nat) by {}
    if r is Ok {
        let n = old(run).drawn@.len() as int;
        let more = read_each(body@, ids.len(), reading)->Ok_0;
        let after = all_seen(final(run).drawn@);
        let before = all_seen(old(run).drawn@);
        assert(after == before.push(more));
        assert(after.len() == final(run).drawn@.len());
        assert(before.len() == n);
        assert forall|s: int| 0 <= s < n implies seen((#[trigger] final(run).drawn@[s])@) == seen(
            old(run).drawn@[s]@,
        ) by {
            assert(after[s] == before[s]);
        }
        let last = final(run).drawn@[n]@;
        assert(after[n] == seen(last));
        assert(seen(last) == more);
        assert(last.len() == seen(last).len());
        assert forall|i: int| 0 <= i < ids.len() implies draw_in(
            body@,
            #[trigger] ids[i],
            questions[ids[i]],
        ) == Ok::<DrawView, Fault>(last[i]@) by {
            assert(reading(body@, i as nat) == Ok::<DrawView, Fault>(more[i]));
            assert(seen(last)[i] == last[i]@);
        }
    }
}

/// What is handed out to be averaged is, question by question in the order of the ids, what
/// the samples gave.
pub proof fn law_tallies_are_handed_out(run: StabilityRun, r: Vec<Tally>, i: int)
    requires
        run.wf(),
        call_ensures(StabilityRun::tallies, (&run,), r),
        0 <= i < run.ids().len(),
    ensures
        r@.len() == run.ids().len(),
        run.questions@[run.ids()[i]] is Noul ==> r@[i].values@.len() == run.drawn@.len() && (
        forall|s: int|
            0 <= s < run.drawn@.len() ==> #[trigger] r@[i].values@[s]
                == run.drawn@[s]@[i]@->probability),
        run.questions@[run.ids()[i]] is Score ==> r@[i].values@.len() == run.drawn@.len()
            && r@[i].confidences@.len() == run.drawn@.len() && (forall|s: int|
            0 <= s < run.drawn@.len() ==> #[trigger] r@[i].values@[s]
                == run.drawn@[s]@[i]@->score) && (forall|s: int|
            0 <= s < run.drawn@.len() ==> #[trigger] r@[i].confidences@[s]
                == run.drawn@[s]@[i]@->Score_confidence),
        run.questions@[run.ids()[i]] is Choice ==> r@[i].confidences@.len() == run.drawn@.len() && (
        forall|s: int|
            0 <= s < run.drawn@.len() ==> #[trigger] r@[i].confidences@[s]
                == run.drawn@[s]@[i]@->Choice_confidence),
{
    let draws = run.answers_to(i);
    let q = run.questions@[run.ids()[i]];
    assert(draws.len() == run.drawn@.len());
    assert forall|s: int| 0 <= s < draws.len() implies (#[trigger] draws[s])
        == run.drawn@[s]@[i]@ && answers(draws[s], q) by {
        assert(all_seen(run.drawn@)[s] == seen(run.drawn@[s]@));
        assert(answers(run.drawn@[s]@[i]@, q));
    }
    assert(tallied(r@[i], q, draws));
    law_tallies_hold_the_samples(r@[i], q, draws);
}

} // verus!
