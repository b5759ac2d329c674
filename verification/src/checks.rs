//! Batteries of checks: yes/no questions that are all asked in one call, each put so that
//! a high probability means that the check passes.

use crate::answer::{answer_at, answer_noul, answered, law_numbers_in_answers, noul_in};
use crate::bulk::{law_answers_are_read_in_turn, lemma_read_stops, read_each};
use crate::document::{text_trees, texts_json};
use crate::error::{Fault, ToolError};
use crate::json::{at, fields_are, has_field, holds, real_tree, spec_as_real, Json, Tree};
use crate::question::{call_body, call_tree, law_calls_hold_what_they_ask, question_tree, Question};
use crate::reals::Real;
use crate::table::{
    ascending, in_order, lemma_ascending_distinct, lemma_walk_in_order, walks, Table,
};
use crate::text::{before, texts};
use vstd::prelude::*;

verus! {

/// How the probability of the check at the place `i` is read.
pub open spec fn check_reading(ids: Seq<Seq<char>>) -> spec_fn(Tree, nat) -> Result<Real, Fault> {
    |body: Tree, i: nat| noul_in(body, ids[i as int])
}

/// The checks among the first `n` that failed: those with a probability below the
/// threshold, in their order.
pub open spec fn failed(
    ids: Seq<Seq<char>>,
    probabilities: Seq<Real>,
    threshold: Real,
    n: nat,
) -> Seq<Seq<char>>
    decreases n,
{
    if n == 0 {
        Seq::empty()
    } else if probabilities[n - 1].spec_lt(threshold) {
        failed(ids, probabilities, threshold, (n - 1) as nat).push(ids[n - 1])
    } else {
        failed(ids, probabilities, threshold, (n - 1) as nat)
    }
}

/// The probability of each of the first `n` checks.
pub open spec fn checks_map(ids: Seq<Seq<char>>, probabilities: Seq<Real>, n: nat) -> Map<
    Seq<char>,
    Tree,
>
    decreases n,
{
    if n == 0 {
        Map::empty()
    } else {
        checks_map(ids, probabilities, (n - 1) as nat).insert(
            ids[n - 1],
            real_tree(probabilities[n - 1]),
        )
    }
}

/// A battery of checks on its way through its call.
pub struct Battery {
    pub state: Json,
    pub questions: Table<Question>,
    pub threshold: Real,
    pub model: String,
    /// The probability of each check, once they are known.
    pub probabilities: Option<Vec<Real>>,
}

impl Battery {
    /// The ids of the checks in their order.
    pub open spec fn ids(&self) -> Seq<Seq<char>> {
        in_order(self.questions@.dom())
    }

    pub open spec fn wf(&self) -> bool {
        &&& walks(&self.questions)
        &&& self.questions.keys() == self.ids()
        &&& self.ids().len() == 0 ==> self.probabilities is Some
        &&& self.probabilities matches Some(p) ==> p@.len() == self.ids().len()
    }

    /// A battery with nothing to ask is done from the start.
    pub fn new(
        state: Json,
        questions: Table<Question>,
        threshold: Real,
        model: String,
    ) -> (r: Battery)
        ensures
            r.wf(),
            r.state == state,
            r.questions == questions,
            r.threshold == threshold,
            r.model == model,
            r.probabilities is Some <==> questions@.len() == 0,
    {
        let n = questions.len();
        proof {
            lemma_walk_in_order(&questions);
        }
        let probabilities = if n == 0 {
            Some(Vec::new())
        } else {
            None
        };
        Battery { state, questions, threshold, model, probabilities }
    }

    /// The body of the call, where it is still to be made.
    pub fn next_call(&self) -> (r: Option<Json>)
        requires
            self.wf(),
        ensures
            match r {
                Some(body) => self.probabilities is None && body@ == call_tree(
                    self.state@,
                    self.questions@,
                    self.model@,
                ),
                None => self.probabilities is Some,
            },
    {
        match &self.probabilities {
            Some(_) => None,
            None => Some(call_body(self.state.copy(), &self.questions, &self.model)),
        }
    }

    /// Takes in the response to the call. A response that leaves a check unanswered is
    /// refused whole.
    pub fn accept(&mut self, body: &Json) -> (r: Result<(), ToolError>)
        requires
            old(self).wf(),
            old(self).probabilities is None,
        ensures
            final(self).wf(),
            final(self).state == old(self).state,
            final(self).questions == old(self).questions,
            final(self).threshold == old(self).threshold,
            final(self).model == old(self).model,
            match r {
                Ok(_) => final(self).probabilities is Some && read_each(
                    body@,
                    old(self).ids().len(),
                    check_reading(old(self).ids()),
                ) == Ok::<Seq<Real>, Fault>(final(self).probabilities->0@),
                Err(e) => read_each(
                    body@,
                    old(self).ids().len(),
                    check_reading(old(self).ids()),
                ) == Err::<Seq<Real>, Fault>(e@) && *final(self) == *old(self),
            },
    {
        let ghost ids = self.ids();
        let n = self.questions.len();
        let mut read: Vec<Real> = Vec::new();
        let mut i: usize = 0;
        while i < n
            invariant
                i <= n,
                *self == *old(self),
                self.wf(),
                ids == self.ids(),
                n == ids.len(),
                read@.len() == i,
                read_each(body@, i as nat, check_reading(ids)) == Ok::<Seq<Real>, Fault>(read@),
            decreases n - i,
        {
            match answer_noul(body, self.questions.key_at(i)) {
                Ok(p) => {
                    read.push(p);
                },
                Err(e) => {
                    proof {
                        lemma_read_stops(body@, (i + 1) as nat, n as nat, check_reading(ids));
                    }
                    return Err(e);
                },
            }
            i = i + 1;
        }
        self.probabilities = Some(read);
        Ok(())
    }

    /// The probability of each check, and the ids of those that failed.
    pub fn judged(&self, probabilities: &Vec<Real>) -> (r: (Json, Json))
        requires
            self.wf(),
            probabilities@.len() == self.ids().len(),
        ensures
            r.0@ == Tree::Object(
                checks_map(self.ids(), probabilities@, self.ids().len()),
            ),
            r.1@ == Tree::Array(
                text_trees(
                    failed(self.ids(), probabilities@, self.threshold, self.ids().len()),
                ),
            ),
    {
        let ghost ids = self.ids();
        let n = self.questions.len();
        let mut checks = Json::object();
        let mut below: Vec<String> = Vec::new();
        let mut i: usize = 0;
        assert(texts(below@) =~= Seq::empty());
        while i < n
            invariant
                i <= n,
                self.wf(),
                ids == self.ids(),
                n == ids.len(),
                probabilities@.len() == n,
                checks@ is Object,
                checks@->Object_0 == checks_map(ids, probabilities@, i as nat),
                texts(below@) == failed(ids, probabilities@, self.threshold, i as nat),
            decreases n - i,
        {
            let p = probabilities[i];
            if p.lt(self.threshold) {
                let ghost was = below@;
                below.push(self.questions.key_at(i).clone());
                assert(texts(below@) =~= texts(was).push(ids[i as int]));
            }
            checks = checks.with(self.questions.key_at(i), Json::number(p));
            i = i + 1;
        }
        (checks, texts_json(&below))
    }
}

/// The failed checks are exactly those with a probability below the threshold, each once,
/// in the order of their ids.
pub proof fn law_failed_are_below_the_threshold(
    ids: Seq<Seq<char>>,
    probabilities: Seq<Real>,
    threshold: Real,
    n: nat,
)
    requires
        ascending(ids),
        n <= ids.len(),
        probabilities.len() == ids.len(),
    ensures
        forall|i: int|
            0 <= i < n ==> (failed(ids, probabilities, threshold, n).contains(#[trigger] ids[i])
                <==> probabilities[i].spec_lt(threshold)),
        forall|id: Seq<char>| #[trigger]
            failed(ids, probabilities, threshold, n).contains(id) ==> exists|i: int|
                0 <= i < n && id == #[trigger] ids[i] && probabilities[i].spec_lt(threshold),
        ascending(failed(ids, probabilities, threshold, n)),
    decreases n,
{
    if n > 0 {
        let m = (n - 1) as nat;
        law_failed_are_below_the_threshold(ids, probabilities, threshold, m);
        lemma_ascending_distinct(ids);
        let was = failed(ids, probabilities, threshold, m);
        let now = failed(ids, probabilities, threshold, n);
        let id = ids[m as int];
        assert(!was.contains(id)) by {
            if was.contains(id) {
                let i = choose|i: int|
                    0 <= i < m && id == #[trigger] ids[i] && probabilities[i].spec_lt(threshold);
                assert(ids[i] != ids[m as int]);
            }
        }
        if probabilities[m as int].spec_lt(threshold) {
            assert(now[now.len() - 1] == id);
        }
        assert forall|k: Seq<char>| #[trigger] was.contains(k) implies now.contains(k) by {
            let a = was.index_of(k);
            assert(now[a] == k);
        }
        assert forall|k: Seq<char>| #[trigger] now.contains(k) implies was.contains(k) || (k == id
            && probabilities[m as int].spec_lt(threshold)) by {
            let a = now.index_of(k);
            if a < was.len() {
                assert(was[a] == k);
            }
        }
        assert forall|i: int| 0 <= i < n implies (now.contains(#[trigger] ids[i])
            <==> probabilities[i].spec_lt(threshold)) by {
            if i < m {
                assert(ids[i] != id);
                assert(was.contains(ids[i]) <==> probabilities[i].spec_lt(threshold));
            }
        }
        assert forall|k: Seq<char>| #[trigger] now.contains(k) implies exists|i: int|
            0 <= i < n && k == #[trigger] ids[i] && probabilities[i].spec_lt(threshold) by {
            if was.contains(k) {
                let i = choose|i: int|
                    0 <= i < m && k == #[trigger] ids[i] && probabilities[i].spec_lt(threshold);
                assert(0 <= i < n && k == ids[i]);
            } else {
                assert(k == ids[m as int]);
            }
        }
        assert forall|a: int, b: int| 0 <= a < b < now.len() implies before(
            #[trigger] now[a],
            #[trigger] now[b],
        ) by {
            assert(now[a] == was[a]);
            if b < was.len() {
                assert(now[b] == was[b]);
            } else {
                assert(was.contains(was[a]));
                let i = choose|i: int|
                    0 <= i < m && was[a] == #[trigger] ids[i] && probabilities[i].spec_lt(
                        threshold,
                    );
                assert(before(ids[i], ids[m as int]));
            }
        }
    }
}

/// The probability of every check is reported, whether the check failed or not.
pub proof fn law_probabilities_survive(ids: Seq<Seq<char>>, probabilities: Seq<Real>, n: nat)
    requires
        ids.no_duplicates(),
        n <= ids.len(),
    ensures
        forall|i: int|
            0 <= i < n ==> checks_map(ids, probabilities, n).contains_key(#[trigger] ids[i])
                && checks_map(ids, probabilities, n)[ids[i]] == real_tree(probabilities[i]),
    decreases n,
{
    if n > 0 {
        let m = (n - 1) as nat;
        law_probabilities_survive(ids, probabilities, m);
        assert forall|i: int| 0 <= i < n implies checks_map(ids, probabilities, n).contains_key(
            #[trigger] ids[i],
        ) && checks_map(ids, probabilities, n)[ids[i]] == real_tree(probabilities[i]) by {
            if i < m {
                assert(ids[i] != ids[m as int]);
            }
        }
    }
}

/// What is reported under the names of checks is the probability of each, and nothing else.
pub proof fn law_each_check_is_reported(ids: Seq<Seq<char>>, probabilities: Seq<Real>, n: nat)
    requires
        ids.no_duplicates(),
        n <= ids.len(),
    ensures
        forall|id: Seq<char>| #[trigger]
            checks_map(ids, probabilities, n).contains_key(id) <==> exists|i: int|
                0 <= i < n && #[trigger] ids[i] == id,
        forall|i: int|
            0 <= i < n ==> checks_map(ids, probabilities, n)[#[trigger] ids[i]] == real_tree(
                probabilities[i],
            ),
    decreases n,
{
    if n > 0 {
        law_each_check_is_reported(ids, probabilities, (n - 1) as nat);
        assert forall|id: Seq<char>| #[trigger]
            checks_map(ids, probabilities, n).contains_key(id) <==> exists|i: int|
                0 <= i < n && #[trigger] ids[i] == id by {
            let before = checks_map(ids, probabilities, (n - 1) as nat);
            assert(checks_map(ids, probabilities, n).contains_key(id) <==> before.contains_key(id)
                || id == ids[n - 1]);
        }
    }
}

/// The probability of a check is read exactly where the response gives one under its name.
pub proof fn law_checks_are_read(ids: Seq<Seq<char>>, body: Tree, i: nat, probability: Real)
    requires
        i < ids.len(),
    ensures
        check_reading(ids)(body, i) == Ok::<Real, Fault>(probability) <==> {
            let id = ids[i as int];
            &&& answered(body, id)
            &&& has_field(answer_at(body, id), "noul"@)
            &&& spec_as_real(at(answer_at(body, id), "noul"@)) == Some(probability)
        },
{
    law_numbers_in_answers(body, ids[i as int], probability);
}

/// The call is made once, with all checks, where there is one to make.
pub proof fn law_checks_are_put_in_one_call(battery: Battery, r: Option<Json>)
    requires
        call_ensures(Battery::next_call, (&battery,), r),
    ensures
        r is Some <==> battery.probabilities is None,
        r matches Some(body) ==> {
            &&& holds(body@, "state"@, battery.state@)
            &&& holds(body@, "model"@, Tree::Text(battery.model@))
            &&& fields_are(at(body@, "questions"@), battery.questions@.dom())
            &&& forall|id: Seq<char>| #[trigger]
                battery.questions@.contains_key(id) ==> holds(
                    at(body@, "questions"@),
                    id,
                    question_tree(battery.questions@[id]),
                )
        },
{
    if r is Some {
        law_calls_hold_what_they_ask(battery.state@, battery.questions@, battery.model@);
    }
}

/// The response is taken in exactly where it gives a probability for every check, and then
/// each under its own name; otherwise nothing changes.
pub proof fn law_checks_take_in_answers(
    battery: &mut Battery,
    body: Json,
    r: Result<(), ToolError>,
)
    requires
        old(battery).wf(),
        old(battery).probabilities is None,
        call_ensures(Battery::accept, (battery, &body), r),
    ensures
        ({
            let ids = in_order(old(battery).questions@.dom());
            &&& r is Ok <==> (forall|i: int|
                0 <= i < ids.len() ==> noul_in(body@, #[trigger] ids[i]) is Ok)
            &&& r is Ok ==> {
                &&& final(battery).probabilities is Some
                &&& final(battery).probabilities->0@.len() == ids.len()
                &&& forall|i: int|
                    0 <= i < ids.len() ==> noul_in(body@, #[trigger] ids[i]) == Ok::<Real, Fault>(
                        final(battery).probabilities->0@[i],
                    )
            }
        }),
        final(battery).state == old(battery).state,
        final(battery).questions == old(battery).questions,
        final(battery).threshold == old(battery).threshold,
        final(battery).model == old(battery).model,
        r is Err ==> *final(battery) == *old(battery),
{
    let ids = old(battery).ids();
    let reading = check_reading(ids);
    law_answers_are_read_in_turn(body@, ids.len(), reading);
    assert forall|i: nat| i < ids.len() implies #[trigger] reading(body@, i) == noul_in(
        body@,
        ids[i as int],
    ) by {}
    assert forall|i: int| 0 <= i < ids.len() implies noul_in(body@, #[trigger] ids[i]) == reading(
        body@,
        i as nat,
    ) by {}
}

} // verus!
