//! How claims stand to the evidence.

use crate::answer::{
    answer_at, answered, choice_among, law_choices_in_answers, law_numbers_in_answers,
};
use crate::bulk::{law_answers_are_read_in_turn, lemma_read_holds, lemma_read_stops, read_each};
use crate::classify::{answer_classified, choice_and_confidence, classified, Classified};
use crate::error::{invalid_params_error, Fault, ToolError};
use crate::json::{at, fields_are, has_field, holds, real_tree, spec_as_real, Json, Tree};
use crate::question::{
    call_body, call_tree, law_calls_hold_what_they_ask, law_choices_are_sent,
    law_numbered_questions_are_sent, model_follows, model_or_default, numbered, numbered_id,
    one_each, question_tree, spec_model, Question, QuestionView,
};
use crate::reals::Real;
use crate::table::Table;
use crate::text::{decimal, decimal_text, join3, same_text};
use vstd::prelude::*;
use vstd::string::*;

verus! {

/// A claim as a caller gives it.
pub enum ClaimSpec {
    Plain(String),
    /// A claim with evidence of its own.
    Detailed { claim: String, source: Option<serde_json::Value> },
}

/// What `check_claims` takes.
pub struct CheckClaimsArgs {
    pub claims: Vec<ClaimSpec>,
    /// The evidence for all claims that have none of their own.
    pub evidence: Option<serde_json::Value>,
    pub model: Option<String>,
}

/// The text of a claim.
pub open spec fn claim_text(c: ClaimSpec) -> Seq<char> {
    match c {
        ClaimSpec::Plain(claim) => claim@,
        ClaimSpec::Detailed { claim, .. } => claim@,
    }
}

/// The evidence that a claim has of its own.
pub open spec fn claim_source(c: ClaimSpec) -> Option<serde_json::Value> {
    match c {
        ClaimSpec::Plain(_) => None,
        ClaimSpec::Detailed { source, .. } => source,
    }
}

/// Whether some claim has evidence of its own.
pub open spec fn some_source(claims: Seq<ClaimSpec>) -> bool {
    exists|i: int| 0 <= i < claims.len() && claim_source(#[trigger] claims[i]) is Some
}

/// Why claims are refused.
pub open spec fn claims_fault(
    claims: Seq<ClaimSpec>,
    evidence: Option<serde_json::Value>,
) -> Option<Seq<char>> {
    if claims.len() == 0 {
        Some("'claims' must contain at least one claim"@)
    } else if evidence is None && !some_source(claims) {
        Some("provide 'evidence', or a 'source' on individual claims, to check against"@)
    } else {
        None
    }
}

/// How a claim stands in the state.
pub open spec fn claim_tree(c: ClaimSpec) -> Tree {
    let plain = map!["claim"@ => Tree::Text(claim_text(c))];
    Tree::Object(
        match claim_source(c) {
            Some(v) => plain.insert("source"@, Tree::Given(v)),
            None => plain,
        },
    )
}

/// How claims stand in the state.
pub open spec fn claim_trees(claims: Seq<ClaimSpec>) -> Seq<Tree> {
    claims.map_values(|c: ClaimSpec| claim_tree(c))
}

/// The state of the call.
pub open spec fn claims_state(
    claims: Seq<ClaimSpec>,
    evidence: Option<serde_json::Value>,
) -> Tree {
    Tree::Object(
        map![
            "claims"@ => Tree::Array(claim_trees(claims)),
            "evidence"@ => match evidence {
                Some(v) => Tree::Given(v),
                None => Tree::Null,
            },
        ],
    )
}

/// How a claim can stand to the evidence.
pub open spec fn status_criteria() -> Map<Seq<char>, Tree> {
    map![
        "supported"@ => Tree::Text("The evidence supports the claim."@),
        "contradicted"@ => Tree::Text("The evidence contradicts the claim."@),
        "unverified"@ => Tree::Text(
            "The evidence neither supports nor contradicts the claim."@,
        ),
    ]
}

/// Where the evidence for the claim `i` stands in the state.
pub open spec fn evidence_ref(own: bool, i: nat) -> Seq<char> {
    if own {
        "`claims["@ + decimal(i) + "].source`"@
    } else {
        "`evidence`"@
    }
}

/// The question about the claim `i`.
pub open spec fn claim_question(own: bool, i: nat) -> QuestionView {
    QuestionView::Choice {
        instructions: Tree::Object(
            map![
                "question"@ => Tree::Text(
                    "How does the evidence relate to the claim in `claims["@ + decimal(i)
                        + "]`?"@,
                ),
                "evidence"@ => Tree::Text(evidence_ref(own, i)),
                "focus"@ => Tree::Text(
                    "Judge only this claim; do not use outside knowledge."@,
                ),
            ],
        ),
        criteria: status_criteria(),
    }
}

/// The questions about claims.
pub open spec fn claims_about(claims: Seq<ClaimSpec>) -> spec_fn(nat) -> QuestionView {
    |i: nat| claim_question(claim_source(claims[i as int]) is Some, i)
}

/// What the names of the questions about claims begin with.
pub open spec fn claim_prefix() -> Seq<char> {
    "claim_"@
}

/// How the answer about the claim `i` is read.
pub open spec fn claims_reading() -> spec_fn(Tree, nat) -> Result<(Seq<char>, Real), Fault> {
    |body: Tree, i: nat|
        choice_and_confidence(body, numbered_id(claim_prefix(), i), status_criteria().dom())
}

/// How many of the first `n` claims have the status `status`.
pub open spec fn status_count(
    answers: Seq<(Seq<char>, Real)>,
    status: Seq<char>,
    n: nat,
) -> nat
    decreases n,
{
    if n == 0 {
        0
    } else {
        status_count(answers, status, (n - 1) as nat) + if answers[n - 1].0 == status {
            1nat
        } else {
            0nat
        }
    }
}

/// Whether a text is one of the statuses that are asked for.
pub open spec fn known_status(status: Seq<char>) -> bool {
    status == "supported"@ || status == "contradicted"@ || status == "unverified"@
}

/// Whether all claims have a status that was asked for.
pub open spec fn all_known(answers: Seq<(Seq<char>, Real)>) -> bool {
    forall|i: int| 0 <= i < answers.len() ==> known_status((#[trigger] answers[i]).0)
}

/// How many of the first `n` claims are counted.
pub open spec fn counts_sum(answers: Seq<(Seq<char>, Real)>, n: nat) -> nat {
    status_count(answers, "supported"@, n) + status_count(answers, "contradicted"@, n)
        + status_count(answers, "unverified"@, n)
}

/// What is reported of one claim.
pub open spec fn claim_entry(answers: Seq<(Seq<char>, Real)>, i: int) -> Tree {
    Tree::Object(
        map![
            "i"@ => Tree::Integer(i),
            "status"@ => Tree::Text(answers[i].0),
            "confidence"@ => real_tree(answers[i].1),
        ],
    )
}

/// What is reported of all claims.
pub open spec fn claims_report(answers: Seq<(Seq<char>, Real)>) -> Tree {
    Tree::Object(
        map![
            "claims"@ => Tree::Array(
                Seq::new(answers.len(), |i: int| claim_entry(answers, i)),
            ),
            "counts"@ => Tree::Object(
                map![
                    "supported"@ => Tree::Integer(
                        status_count(answers, "supported"@, answers.len()) as int,
                    ),
                    "contradicted"@ => Tree::Integer(
                        status_count(answers, "contradicted"@, answers.len()) as int,
                    ),
                    "unverified"@ => Tree::Integer(
                        status_count(answers, "unverified"@, answers.len()) as int,
                    ),
                ],
            ),
        ],
    )
}

/// Claims on their way through the call.
pub struct ClaimsRun {
    pub claims: Vec<ClaimSpec>,
    pub evidence: Option<serde_json::Value>,
    pub model: String,
    /// What the answers about the claims say, once they are known.
    pub answers: Option<Vec<Classified>>,
}

fn has_source(c: &ClaimSpec) -> (r: bool)
    ensures
        r == (claim_source(*c) is Some),
{
    match c {
        ClaimSpec::Plain(_) => false,
        ClaimSpec::Detailed { source, .. } => source.is_some(),
    }
}

/// Begins to check claims: refuses an empty list, and claims without any evidence, before
/// anything is asked.
pub fn check_claims(args: CheckClaimsArgs) -> (r: Result<ClaimsRun, ToolError>)
    ensures
        match r {
            Ok(run) => {
                &&& claims_fault(args.claims@, args.evidence) is None
                &&& run.wf()
                &&& run.claims == args.claims
                &&& run.evidence == args.evidence
                &&& run.model@ == spec_model(args.model)
                &&& run.answers is None
            },
            Err(e) => claims_fault(args.claims@, args.evidence) is Some && e@
                == Fault::InvalidParams(claims_fault(args.claims@, args.evidence)->0),
        },
{
    if args.claims.len() == 0 {
        return Err(invalid_params_error("'claims' must contain at least one claim".to_string()));
    }
    if args.evidence.is_none() {
        let mut found = false;
        let mut i: usize = 0;
        while i < args.claims.len()
            invariant
                i <= args.claims@.len(),
                found <==> exists|k: int|
                    0 <= k < i && claim_source(#[trigger] args.claims@[k]) is Some,
            decreases args.claims.len() - i,
        {
            if has_source(&args.claims[i]) {
                found = true;
            }
            i = i + 1;
        }
        if !found {
            return Err(
                invalid_params_error(
                    "provide 'evidence', or a 'source' on individual claims, to check against".to_string(),
                ),
            );
        }
        assert(some_source(args.claims@));
    }
    Ok(
        ClaimsRun {
            claims: args.claims,
            evidence: args.evidence,
            model: model_or_default(args.model),
            answers: None,
        },
    )
}

fn status_table() -> (r: Table<Json>)
    ensures
        r@ == status_criteria(),
{
    let mut criteria: Table<Json> = Table::new();
    criteria.insert("supported".to_string(), Json::text("The evidence supports the claim."));
    criteria.insert("contradicted".to_string(), Json::text("The evidence contradicts the claim."));
    criteria.insert(
        "unverified".to_string(),
        Json::text("The evidence neither supports nor contradicts the claim."),
    );
    criteria
}

impl ClaimsRun {
    pub open spec fn wf(&self) -> bool {
        &&& self.claims@.len() > 0
        &&& self.answers matches Some(a) ==> a@.len() == self.claims@.len() && all_known(
            classified(a@),
        )
    }

    fn state_json(&self) -> (r: Json)
        ensures
            r@ == claims_state(self.claims@, self.evidence),
    {
        let ghost all = claim_trees(self.claims@);
        let mut list = Json::array();
        let mut i: usize = 0;
        assert(all.take(0) =~= Seq::empty());
        while i < self.claims.len()
            invariant
                i <= self.claims@.len(),
                all == claim_trees(self.claims@),
                list@ is Array,
                list@->Array_0 == all.take(i as int),
            decreases self.claims.len() - i,
        {
            let entry = match &self.claims[i] {
                ClaimSpec::Plain(claim) => Json::object().with("claim", Json::text(claim)),
                ClaimSpec::Detailed { claim, source } => {
                    let plain = Json::object().with("claim", Json::text(claim));
                    match source {
                        Some(v) => plain.with("source", Json::Given(v.clone())),
                        None => plain,
                    }
                },
            };
            list = list.followed_by(entry);
            assert(all.take(i + 1) =~= all.take(i as int).push(claim_tree(self.claims@[i as int])));
            i = i + 1;
        }
        assert(all.take(i as int) =~= all);
        let evidence = match &self.evidence {
            Some(v) => Json::Given(v.clone()),
            None => Json::Null,
        };
        Json::object().with("claims", list).with("evidence", evidence)
    }

    /// The body of the call, where it is still to be made: one question about each claim.
    pub fn next_call(&self) -> (r: Option<Json>)
        requires
            self.wf(),
        ensures
            match r {
                Some(body) => self.answers is None && body@ == call_tree(
                    claims_state(self.claims@, self.evidence),
                    one_each(claim_prefix(), self.claims@.len(), claims_about(self.claims@)),
                    self.model@,
                ),
                None => self.answers is Some,
            },
    {
        if self.answers.is_some() {
            return None;
        }
        let mut questions: Table<Question> = Table::new();
        let mut i: usize = 0;
        while i < self.claims.len()
            invariant
                i <= self.claims@.len(),
                questions@ == one_each(claim_prefix(), i as nat, claims_about(self.claims@)),
            decreases self.claims.len() - i,
        {
            let number = decimal_text(i as u64);
            let evidence = if has_source(&self.claims[i]) {
                join3("`claims[", &number, "].source`")
            } else {
                "`evidence`".to_string()
            };
            let question = join3(
                "How does the evidence relate to the claim in `claims[",
                &number,
                "]`?",
            );
            questions.insert(
                numbered("claim_", i),
                Question::Choice {
                    instructions: Json::object().with("question", Json::Text(question)).with(
                        "evidence",
                        Json::Text(evidence),
                    ).with(
                        "focus",
                        Json::text("Judge only this claim; do not use outside knowledge."),
                    ),
                    criteria: status_table(),
                },
            );
            i = i + 1;
        }
        Some(call_body(self.state_json(), &questions, &self.model))
    }

    /// Takes in the response to the call. A response that leaves a claim unanswered is
    /// refused whole.
    pub fn accept(&mut self, body: &Json) -> (r: Result<(), ToolError>)
        requires
            old(self).wf(),
            old(self).answers is None,
        ensures
            final(self).wf(),
            final(self).claims == old(self).claims,
            final(self).evidence == old(self).evidence,
            final(self).model == old(self).model,
            match r {
                Ok(_) => final(self).answers is Some && read_each(
                    body@,
                    old(self).claims@.len(),
                    claims_reading(),
                ) == Ok::<Seq<(Seq<char>, Real)>, Fault>(classified(final(self).answers->0@)),
                Err(e) => read_each(body@, old(self).claims@.len(), claims_reading()) == Err::<
                    Seq<(Seq<char>, Real)>,
                    Fault,
                >(e@) && *final(self) == *old(self),
            },
    {
        let statuses = status_table();
        let mut read: Vec<Classified> = Vec::new();
        let mut i: usize = 0;
        assert(classified(read@) =~= Seq::empty());
        while i < self.claims.len()
            invariant
                i <= self.claims@.len(),
                *self == *old(self),
                self.wf(),
                statuses@ == status_criteria(),
                read@.len() == i,
                read_each(body@, i as nat, claims_reading()) == Ok::<
                    Seq<(Seq<char>, Real)>,
                    Fault,
                >(classified(read@)),
            decreases self.claims.len() - i,
        {
            match answer_classified(body, &numbered("claim_", i), &statuses) {
                Ok(c) => {
                    let ghost was = read@;
                    read.push(c);
                    assert(classified(read@) =~= classified(was).push(c@));
                },
                Err(e) => {
                    proof {
                        lemma_read_stops(
                            body@,
                            (i + 1) as nat,
                            self.claims@.len(),
                            claims_reading(),
                        );
                    }
                    return Err(e);
                },
            }
            i = i + 1;
        }
        proof {
            lemma_statuses_known(body@, self.claims@.len());
        }
        self.answers = Some(read);
        Ok(())
    }

    /// The report on all claims, once they are answered.
    pub fn report(&self) -> (r: Option<Json>)
        requires
            self.wf(),
        ensures
            match r {
                Some(report) => self.answers is Some && report@ == claims_report(
                    classified(self.answers->0@),
                ),
                None => self.answers is None,
            },
            self.answers matches Some(a) ==> counts_sum(classified(a@), a@.len())
                == self.claims@.len(),
    {
        proof {
            if self.answers is Some {
                lemma_counts(classified(self.answers->0@), self.claims@.len());
            }
        }
        match &self.answers {
            None => None,
            Some(answers) => {
                let ghost all = classified(answers@);
                let mut supported: usize = 0;
                let mut contradicted: usize = 0;
                let mut unverified: usize = 0;
                let mut entries = Json::array();
                let mut i: usize = 0;
                assert(Seq::new(0, |k: int| claim_entry(all, k)) =~= Seq::empty());
                while i < answers.len()
                    invariant
                        i <= answers@.len(),
                        all == classified(answers@),
                        supported <= i,
                        contradicted <= i,
                        unverified <= i,
                        supported == status_count(all, "supported"@, i as nat),
                        contradicted == status_count(all, "contradicted"@, i as nat),
                        unverified == status_count(all, "unverified"@, i as nat),
                        entries@ is Array,
                        entries@->Array_0 == Seq::new(i as nat, |k: int| claim_entry(all, k)),
                    decreases answers.len() - i,
                {
                    let status = &answers[i].choice;
                    if same_text(status, "supported") {
                        supported = supported + 1;
                    }
                    if same_text(status, "contradicted") {
                        contradicted = contradicted + 1;
                    }
                    if same_text(status, "unverified") {
                        unverified = unverified + 1;
                    }
                    entries = entries.followed_by(
                        Json::object().with("i", Json::count(i)).with(
                            "status",
                            Json::text(status),
                        ).with("confidence", Json::number(answers[i].confidence)),
                    );
                    assert(Seq::new((i + 1) as nat, |k: int| claim_entry(all, k)) =~= Seq::new(
                        i as nat,
                        |k: int| claim_entry(all, k),
                    ).push(claim_entry(all, i as int)));
                    i = i + 1;
                }
                let counts = Json::object().with("supported", Json::count(supported)).with(
                    "contradicted",
                    Json::count(contradicted),
                ).with("unverified", Json::count(unverified));
                Some(Json::object().with("claims", entries).with("counts", counts))
            },
        }
    }
}

/// The statuses that can be read are those that are asked for.
proof fn lemma_statuses_known(body: Tree, n: nat)
    ensures
        read_each(body, n, claims_reading()) matches Ok(answers) ==> answers.len() == n
            && all_known(answers),
{
    lemma_read_holds(
        body,
        n,
        claims_reading(),
        |i: nat, x: (Seq<char>, Real)| known_status(x.0),
    );
}

proof fn lemma_counts(answers: Seq<(Seq<char>, Real)>, n: nat)
    requires
        n <= answers.len(),
        all_known(answers),
    ensures
        counts_sum(answers, n) == n,
    decreases n,
{
    reveal_strlit("supported");
    reveal_strlit("contradicted");
    reveal_strlit("unverified");
    assert("supported"@.len() == 9 && "contradicted"@.len() == 12 && "unverified"@.len() == 10);
    if n > 0 {
        lemma_counts(answers, (n - 1) as nat);
        assert(known_status(answers[n - 1].0));
    }
}

/// Each claim is supported, contradicted or unverified and is counted once: in what is read
/// of any response, the counts add up to the number of claims.
pub proof fn law_counts_add_up(body: Tree, n: nat)
    ensures
        read_each(body, n, claims_reading()) matches Ok(answers) ==> answers.len() == n
            && all_known(answers) && counts_sum(answers, n) == n,
{
    lemma_statuses_known(body, n);
    if read_each(body, n, claims_reading()) is Ok {
        lemma_counts(read_each(body, n, claims_reading())->Ok_0, n);
    }
}

/// The report counts, for each status, the claims that have it: as many as there are
/// answers with the status, and as many as there are entries under `claims` with it. There
/// are no other counts.
pub proof fn law_counts_are_of_the_answers(answers: Seq<(Seq<char>, Real)>, status: Seq<char>)
    requires
        status == "supported"@ || status == "contradicted"@ || status == "unverified"@,
    ensures
        ({
            let counts = at(claims_report(answers), "counts"@);
            let entries = at(claims_report(answers), "claims"@);
            &&& fields_are(counts, set!["supported"@, "contradicted"@, "unverified"@])
            &&& entries is Array
            &&& holds(
                counts,
                status,
                Tree::Integer(
                    answers.filter(|a: (Seq<char>, Real)| a.0 == status).len() as int,
                ),
            )
            &&& holds(
                counts,
                status,
                Tree::Integer(
                    entries->Array_0.filter(
                        |e: Tree| holds(e, "status"@, Tree::Text(status)),
                    ).len() as int,
                ),
            )
        }),
{
    reveal_strlit("supported");
    reveal_strlit("contradicted");
    reveal_strlit("unverified");
    reveal_strlit("claims");
    reveal_strlit("counts");
    reveal_strlit("i");
    reveal_strlit("status");
    reveal_strlit("confidence");
    assert("supported"@.len() == 9);
    assert("contradicted"@.len() == 12);
    assert("unverified"@.len() == 10);
    assert("claims"@.len() == 6);
    assert("counts"@.len() == 6);
    assert("i"@.len() == 1);
    assert("status"@.len() == 6);
    assert("confidence"@.len() == 10);
    assert("unverified"@[0] != "confidence"@[0]);
    assert("claims"@[1] != "counts"@[1]);
    assert("claims"@[0] != "status"@[0]);
    assert("counts"@[0] != "status"@[0]);
    let counts = at(claims_report(answers), "counts"@);
    assert(counts->Object_0.dom() =~= set!["supported"@, "contradicted"@, "unverified"@]);
    lemma_status_count(answers, status, answers.len());
    assert(answers.take(answers.len() as int) =~= answers);
    let entries = Seq::new(answers.len(), |i: int| claim_entry(answers, i));
    assert(at(claims_report(answers), "claims"@)->Array_0 =~= entries);
    assert(entries.take(entries.len() as int) =~= entries);
}

proof fn lemma_status_count(answers: Seq<(Seq<char>, Real)>, status: Seq<char>, n: nat)
    requires
        n <= answers.len(),
    ensures
        status_count(answers, status, n) == answers.take(n as int).filter(
            |a: (Seq<char>, Real)| a.0 == status,
        ).len(),
        status_count(answers, status, n) == Seq::new(
            answers.len(),
            |i: int| claim_entry(answers, i),
        ).take(n as int).filter(|e: Tree| holds(e, "status"@, Tree::Text(status))).len(),
    decreases n,
{
    reveal_strlit("i");
    reveal_strlit("status");
    reveal_strlit("confidence");
    assert("i"@.len() == 1);
    assert("status"@.len() == 6);
    assert("confidence"@.len() == 10);
    reveal(Seq::filter);
    let entries = Seq::new(answers.len(), |i: int| claim_entry(answers, i));
    if n > 0 {
        lemma_status_count(answers, status, (n - 1) as nat);
        assert(answers.take(n as int).drop_last() =~= answers.take(n - 1));
        assert(entries.take(n as int).drop_last() =~= entries.take(n - 1));
        assert(answers.take(n as int).last() == answers[n - 1]);
        assert(entries.take(n as int).last() == claim_entry(answers, n - 1));
        assert(holds(claim_entry(answers, n - 1), "status"@, Tree::Text(status)) <==> answers[n
            - 1].0 == status);
    }
}

/// Each claim is reported at its own place, with what its answer says.
pub proof fn law_claims_are_reported_in_turn(answers: Seq<(Seq<char>, Real)>, i: int)
    requires
        0 <= i < answers.len(),
    ensures
        ({
            let report = claims_report(answers);
            let entries = at(report, "claims"@)->Array_0;
            &&& fields_are(report, set!["claims"@, "counts"@])
            &&& at(report, "claims"@) is Array
            &&& entries.len() == answers.len()
            &&& fields_are(entries[i], set!["i"@, "status"@, "confidence"@])
            &&& holds(entries[i], "i"@, Tree::Integer(i))
            &&& holds(entries[i], "status"@, Tree::Text(answers[i].0))
            &&& holds(entries[i], "confidence"@, real_tree(answers[i].1))
        }),
{
    reveal_strlit("claims");
    reveal_strlit("counts");
    reveal_strlit("i");
    reveal_strlit("status");
    reveal_strlit("confidence");
    assert("claims"@.len() == 6);
    assert("counts"@.len() == 6);
    assert("i"@.len() == 1);
    assert("status"@.len() == 6);
    assert("confidence"@.len() == 10);
    assert("claims"@[1] != "counts"@[1]);
    assert("claims"@[0] != "status"@[0]);
    assert("counts"@[0] != "status"@[0]);
    let report = claims_report(answers);
    assert(report->Object_0.dom() =~= set!["claims"@, "counts"@]);
    let entry = at(report, "claims"@)->Array_0[i];
    assert(entry == claim_entry(answers, i));
    assert(entry->Object_0.dom() =~= set!["i"@, "status"@, "confidence"@]);
}

/// The state of the call holds the evidence for all claims, or null where there is none,
/// and each claim at its place: its text and, exactly where it has one, its own source.
pub proof fn law_claims_are_sent(
    claims: Seq<ClaimSpec>,
    evidence: Option<serde_json::Value>,
    i: int,
)
    requires
        0 <= i < claims.len(),
    ensures
        ({
            let state = claims_state(claims, evidence);
            let sent = at(state, "claims"@)->Array_0;
            &&& fields_are(state, set!["claims"@, "evidence"@])
            &&& evidence matches Some(v) ==> at(state, "evidence"@) == Tree::Given(v)
            &&& evidence is None ==> at(state, "evidence"@) == Tree::Null
            &&& at(state, "claims"@) is Array
            &&& sent.len() == claims.len()
            &&& claims[i] matches ClaimSpec::Plain(claim) ==> fields_are(sent[i], set!["claim"@])
                && holds(sent[i], "claim"@, Tree::Text(claim@))
            &&& claims[i] matches ClaimSpec::Detailed { claim, source: None } ==> fields_are(
                sent[i],
                set!["claim"@],
            ) && holds(sent[i], "claim"@, Tree::Text(claim@))
            &&& claims[i] matches ClaimSpec::Detailed { claim, source: Some(v) } ==> fields_are(
                sent[i],
                set!["claim"@, "source"@],
            ) && holds(sent[i], "claim"@, Tree::Text(claim@)) && holds(
                sent[i],
                "source"@,
                Tree::Given(v),
            )
        }),
{
    reveal_strlit("claims");
    reveal_strlit("evidence");
    reveal_strlit("claim");
    reveal_strlit("source");
    assert("claims"@.len() == 6);
    assert("evidence"@.len() == 8);
    assert("claim"@.len() == 5);
    assert("source"@.len() == 6);
    assert("claims"@[0] != "source"@[0]);
    let state = claims_state(claims, evidence);
    assert(state->Object_0.dom() =~= set!["claims"@, "evidence"@]);
    let entry = at(state, "claims"@)->Array_0[i];
    assert(entry == claim_tree(claims[i]));
    if claim_source(claims[i]) is Some {
        assert(entry->Object_0.dom() =~= set!["claim"@, "source"@]);
    } else {
        assert(entry->Object_0.dom() =~= set!["claim"@]);
    }
}

/// Each claim is asked about once, by its number: against its own source where it has one
/// and against the common evidence where it has none, with the three statuses to choose
/// from.
pub proof fn law_claims_are_asked(
    claims: Seq<ClaimSpec>,
    evidence: Option<serde_json::Value>,
    model: Seq<char>,
    i: nat,
)
    requires
        i < claims.len(),
    ensures
        ({
            let call = call_tree(
                claims_state(claims, evidence),
                one_each(claim_prefix(), claims.len(), claims_about(claims)),
                model,
            );
            let asked = at(call, "questions"@);
            let q = at(asked, "claim_"@ + decimal(i));
            let told = at(q, "instructions"@);
            let criteria = at(q, "criteria"@);
            let own = match claims[i as int] {
                ClaimSpec::Detailed { source: Some(_), .. } => true,
                _ => false,
            };
            &&& asked is Object && asked->Object_0.len() == claims.len()
            &&& has_field(asked, "claim_"@ + decimal(i))
            &&& fields_are(q, set!["type"@, "instructions"@, "criteria"@])
            &&& holds(q, "type"@, Tree::Text("choice"@))
            &&& fields_are(told, set!["question"@, "evidence"@, "focus"@])
            &&& holds(
                told,
                "question"@,
                Tree::Text(
                    "How does the evidence relate to the claim in `claims["@ + decimal(i)
                        + "]`?"@,
                ),
            )
            &&& own ==> holds(
                told,
                "evidence"@,
                Tree::Text("`claims["@ + decimal(i) + "].source`"@),
            )
            &&& !own ==> holds(told, "evidence"@, Tree::Text("`evidence`"@))
            &&& holds(
                told,
                "focus"@,
                Tree::Text("Judge only this claim; do not use outside knowledge."@),
            )
            &&& fields_are(criteria, set!["supported"@, "contradicted"@, "unverified"@])
            &&& holds(criteria, "supported"@, Tree::Text("The evidence supports the claim."@))
            &&& holds(
                criteria,
                "contradicted"@,
                Tree::Text("The evidence contradicts the claim."@),
            )
            &&& holds(
                criteria,
                "unverified"@,
                Tree::Text("The evidence neither supports nor contradicts the claim."@),
            )
        }),
{
    reveal_strlit("question");
    reveal_strlit("evidence");
    reveal_strlit("focus");
    reveal_strlit("supported");
    reveal_strlit("contradicted");
    reveal_strlit("unverified");
    reveal_strlit("type");
    reveal_strlit("instructions");
    reveal_strlit("criteria");
    assert("question"@.len() == 8);
    assert("evidence"@.len() == 8);
    assert("focus"@.len() == 5);
    assert("supported"@.len() == 9);
    assert("contradicted"@.len() == 12);
    assert("unverified"@.len() == 10);
    assert("type"@.len() == 4);
    assert("instructions"@.len() == 12);
    assert("criteria"@.len() == 8);
    assert("question"@[0] != "evidence"@[0]);
    assert("question"@[0] != "criteria"@[0]);
    assert("evidence"@[0] != "criteria"@[0]);
    assert("contradicted"@[0] != "instructions"@[0]);
    let own = claim_source(claims[i as int]) is Some;
    law_numbered_questions_are_sent(
        claims_state(claims, evidence),
        claim_prefix(),
        claims.len(),
        claims_about(claims),
        model,
        i,
    );
    assert(claims_about(claims)(i) == claim_question(own, i));
    let view = claim_question(own, i);
    law_choices_are_sent(view->Choice_instructions, view->Choice_criteria);
    let told = view->Choice_instructions;
    assert(told->Object_0.dom() =~= set!["question"@, "evidence"@, "focus"@]);
    assert(view->Choice_criteria.dom() =~= set!["supported"@, "contradicted"@, "unverified"@]);
}

/// The answer about a claim is read exactly where the response gives, under the claim's own
/// name, one of the three statuses and a confidence.
pub proof fn law_statuses_are_read(body: Tree, i: nat, status: Seq<char>, confidence: Real)
    ensures
        claims_reading()(body, i) == Ok::<(Seq<char>, Real), Fault>((status, confidence)) <==> {
            let id = "claim_"@ + decimal(i);
            &&& status == "supported"@ || status == "contradicted"@ || status == "unverified"@
            &&& answered(body, id)
            &&& holds(answer_at(body, id), "choice"@, Tree::Text(status))
            &&& has_field(answer_at(body, id), "confidence"@)
            &&& spec_as_real(at(answer_at(body, id), "confidence"@)) == Some(confidence)
        },
{
    let id = numbered_id(claim_prefix(), i);
    assert(id == "claim_"@ + decimal(i));
    law_choices_in_answers(body, id, status_criteria().dom(), status);
    law_numbers_in_answers(body, id, confidence);
    assert(status_criteria().dom() =~= set!["supported"@, "contradicted"@, "unverified"@]);
    if claims_reading()(body, i) == Ok::<(Seq<char>, Real), Fault>((status, confidence)) {
        assert(choice_among(body, id, status_criteria().dom()) == Ok::<Seq<char>, Fault>(status));
    }
}

/// Claims are refused exactly where there is none, or where there is no evidence: neither
/// for all of them nor for any one.
pub proof fn law_claims_need_evidence(
    claims: Seq<ClaimSpec>,
    evidence: Option<serde_json::Value>,
)
    ensures
        claims.len() == 0 ==> claims_fault(claims, evidence) == Some(
            "'claims' must contain at least one claim"@,
        ),
        claims.len() > 0 && evidence is Some ==> claims_fault(claims, evidence) is None,
        claims.len() > 0 && evidence is None ==> {
            let bare = forall|i: int|
                0 <= i < claims.len() ==> match #[trigger] claims[i] {
                    ClaimSpec::Detailed { source: Some(_), .. } => false,
                    _ => true,
                };
            &&& bare ==> claims_fault(claims, evidence) == Some(
                "provide 'evidence', or a 'source' on individual claims, to check against"@,
            )
            &&& !bare ==> claims_fault(claims, evidence) is None
        },
{
    assert forall|i: int| 0 <= i < claims.len() implies (claim_source(#[trigger] claims[i]) is None
        <==> match claims[i] {
        ClaimSpec::Detailed { source: Some(_), .. } => false,
        _ => true,
    }) by {}
}

/// A check of claims begins with what the caller gives, wherever there is a claim and
/// evidence for one at least.
pub proof fn law_claims_begin_as_asked(args: CheckClaimsArgs, r: Result<ClaimsRun, ToolError>)
    requires
        call_ensures(check_claims, (args,), r),
    ensures
        r is Ok <==> args.claims@.len() > 0 && (args.evidence is Some || exists|i: int|
            0 <= i < args.claims@.len() && match #[trigger] args.claims@[i] {
                ClaimSpec::Detailed { source: Some(_), .. } => true,
                _ => false,
            }),
        r matches Ok(run) ==> {
            &&& run.claims == args.claims
            &&& run.evidence == args.evidence
            &&& run.answers is None
            &&& model_follows(args.model, run.model@)
        },
        r matches Err(e) ==> e@ is InvalidParams,
{
    law_claims_need_evidence(args.claims@, args.evidence);
}

/// The call is made once: about all claims and all evidence that there is.
pub proof fn law_claims_are_put_in_one_call(run: ClaimsRun, r: Option<Json>)
    requires
        call_ensures(ClaimsRun::next_call, (&run,), r),
    ensures
        r is Some <==> run.answers is None,
        r matches Some(body) ==> {
            let asked = at(body@, "questions"@);
            &&& holds(body@, "model"@, Tree::Text(run.model@))
            &&& holds(body@, "state"@, claims_state(run.claims@, run.evidence))
            &&& run.claims@.len() > 0 ==> asked is Object && asked->Object_0.len()
                == run.claims@.len()
            &&& forall|i: nat|
                i < run.claims@.len() ==> holds(
                    asked,
                    "claim_"@ + #[trigger] decimal(i),
                    question_tree(
                        claim_question(
                            match run.claims@[i as int] {
                                ClaimSpec::Detailed { source: Some(_), .. } => true,
                                _ => false,
                            },
                            i,
                        ),
                    ),
                )
        },
{
    if r is Some {
        let claims = run.claims@;
        let state = claims_state(claims, run.evidence);
        law_calls_hold_what_they_ask(
            state,
            one_each(claim_prefix(), claims.len(), claims_about(claims)),
            run.model@,
        );
        assert forall|i: nat| i < claims.len() implies holds(
            at(r->0@, "questions"@),
            "claim_"@ + #[trigger] decimal(i),
            question_tree(
                claim_question(
                    match claims[i as int] {
                        ClaimSpec::Detailed { source: Some(_), .. } => true,
                        _ => false,
                    },
                    i,
                ),
            ),
        ) by {
            law_numbered_questions_are_sent(
                state,
                claim_prefix(),
                claims.len(),
                claims_about(claims),
                run.model@,
                i,
            );
        }
        if claims.len() > 0 {
            law_numbered_questions_are_sent(
                state,
                claim_prefix(),
                claims.len(),
                claims_about(claims),
                run.model@,
                0,
            );
        }
    }
}

/// The report counts each status as often as an answer has it, and as often as an entry
/// under `claims` gives it.
pub proof fn law_claims_report_their_counts(run: ClaimsRun, r: Option<Json>, status: Seq<char>)
    requires
        call_ensures(ClaimsRun::report, (&run,), r),
        status == "supported"@ || status == "contradicted"@ || status == "unverified"@,
    ensures
        r is Some <==> run.answers is Some,
        r matches Some(report) ==> {
            let counts = at(report@, "counts"@);
            let entries = at(report@, "claims"@)->Array_0;
            &&& fields_are(counts, set!["supported"@, "contradicted"@, "unverified"@])
            &&& holds(
                counts,
                status,
                Tree::Integer(
                    run.answers->0@.filter(|a: Classified| a.choice@ == status).len() as int,
                ),
            )
            &&& holds(
                counts,
                status,
                Tree::Integer(
                    entries.filter(|e: Tree| holds(e, "status"@, Tree::Text(status))).len() as int,
                ),
            )
            &&& entries.len() == run.answers->0@.len()
            &&& forall|i: int|
                0 <= i < entries.len() ==> holds(
                    #[trigger] entries[i],
                    "status"@,
                    Tree::Text(run.answers->0@[i].choice@),
                ) && holds(entries[i], "confidence"@, real_tree(run.answers->0@[i].confidence))
                    && holds(entries[i], "i"@, Tree::Integer(i))
        },
{
    if r is Some {
        let kept = run.answers->0@;
        let answers = classified(kept);
        law_counts_are_of_the_answers(answers, status);
        lemma_kept_count(kept, status, kept.len());
        assert(kept.take(kept.len() as int) =~= kept);
        assert(answers.take(kept.len() as int) =~= answers);
        let entries = at(r->0@, "claims"@)->Array_0;
        assert(at(claims_report(answers), "claims"@) == at(r->0@, "claims"@));
        if answers.len() > 0 {
            law_claims_are_reported_in_turn(answers, 0);
        } else {
            assert(entries.len() == 0) by {
                reveal_strlit("claims");
                reveal_strlit("counts");
                assert("claims"@.len() == 6);
                assert("counts"@.len() == 6);
                assert("claims"@[1] != "counts"@[1]);
            }
        }
        assert forall|i: int| 0 <= i < entries.len() implies holds(
            #[trigger] entries[i],
            "status"@,
            Tree::Text(kept[i].choice@),
        ) && holds(entries[i], "confidence"@, real_tree(kept[i].confidence)) && holds(
            entries[i],
            "i"@,
            Tree::Integer(i),
        ) by {
            law_claims_are_reported_in_turn(answers, i);
            assert(answers[i] == kept[i]@);
        }
    }
}

proof fn lemma_kept_count(kept: Seq<Classified>, status: Seq<char>, n: nat)
    requires
        n <= kept.len(),
    ensures
        kept.take(n as int).filter(|a: Classified| a.choice@ == status).len() == classified(
            kept,
        ).take(n as int).filter(|a: (Seq<char>, Real)| a.0 == status).len(),
    decreases n,
{
    reveal(Seq::filter);
    if n > 0 {
        lemma_kept_count(kept, status, (n - 1) as nat);
        assert(kept.take(n as int).drop_last() =~= kept.take(n - 1));
        assert(classified(kept).take(n as int).drop_last() =~= classified(kept).take(n - 1));
        assert(classified(kept).take(n as int).last() == kept[n - 1]@);
    }
}

/// The response is taken in exactly where it gives a status and a confidence for every claim,
/// and then each at its own place; otherwise nothing changes.
pub proof fn law_claims_take_in_answers(
    run: &mut ClaimsRun,
    body: Json,
    r: Result<(), ToolError>,
)
    requires
        old(run).wf(),
        old(run).answers is None,
        call_ensures(ClaimsRun::accept, (run, &body), r),
    ensures
        ({
            let statuses = set!["supported"@, "contradicted"@, "unverified"@];
            &&& r is Ok <==> (forall|i: nat|
                i < old(run).claims@.len() ==> choice_and_confidence(
                    body@,
                    "claim_"@ + #[trigger] decimal(i),
                    statuses,
                ) is Ok)
            &&& r is Ok ==> {
                &&& final(run).answers is Some
                &&& final(run).answers->0@.len() == old(run).claims@.len()
                &&& forall|i: nat|
                    i < old(run).claims@.len() ==> choice_and_confidence(
                        body@,
                        "claim_"@ + #[trigger] decimal(i),
                        statuses,
                    ) == Ok::<(Seq<char>, Real), Fault>(final(run).answers->0@[i as int]@)
            }
        }),
        final(run).claims == old(run).claims,
        final(run).evidence == old(run).evidence,
        final(run).model == old(run).model,
        r is Err ==> *final(run) == *old(run),
{
    let n = old(run).claims@.len();
    let reading = claims_reading();
    let statuses = set!["supported"@, "contradicted"@, "unverified"@];
    assert(status_criteria().dom() =~= statuses);
    law_answers_are_read_in_turn(body@, n, reading);
    assert forall|i: nat| i < n implies claims_reading()(body@, i) == choice_and_confidence(
        body@,
        "claim_"@ + #[trigger] decimal(i),
        statuses,
    ) by {
        assert(numbered_id(claim_prefix(), i) == "claim_"@ + decimal(i));
    }
    assert forall|i: nat| i < n implies ((#[trigger] reading(body@, i)) is Ok
        <==> choice_and_confidence(body@, "claim_"@ + decimal(i), statuses) is Ok) by {}
    if r is Ok {
        let kept = final(run).answers->0@;
        assert(classified(kept).len() == kept.len());
        assert forall|i: nat| i < n implies choice_and_confidence(
            body@,
            "claim_"@ + #[trigger] decimal(i),
            statuses,
        ) == Ok::<(Seq<char>, Real), Fault>(kept[i as int]@) by {
            assert(reading(body@, i) == Ok::<(Seq<char>, Real), Fault>(classified(kept)[i as int]));
        }
    }
}

} // verus!
