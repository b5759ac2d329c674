//! Reading the answers of the service.

use crate::error::{internal_error, Fault, ToolError};
use crate::json::{
    at, fields_are, fields_map, has_field, holds, lemma_fields_push, spec_as_real, spec_get, Json,
    Tree,
};
use crate::reals::Real;
use crate::table::{lemma_walk_step, walks, Table};
use crate::text::{before, join3, join5, lemma_before_irreflexive, lemma_before_transitive};
use vstd::prelude::*;

verus! {

/// The answer to the question `id` in a response.
pub open spec fn answer_to(body: Tree, id: Seq<char>) -> Option<Tree> {
    match spec_get(body, "answers"@) {
        Some(answers) => spec_get(answers, id),
        None => None,
    }
}

/// That a response does not answer the question `id`.
pub open spec fn missing_answer(id: Seq<char>) -> Fault {
    Fault::Internal("TypeSafe response is missing answer '"@ + id + "'"@)
}

/// The number `name` in the answer to the question `id`.
pub open spec fn number_in(body: Tree, id: Seq<char>, name: Seq<char>) -> Result<Real, Fault> {
    match answer_to(body, id) {
        None => Err(missing_answer(id)),
        Some(answer) => {
            let value = match spec_get(answer, name) {
                Some(v) => spec_as_real(v),
                None => None,
            };
            match value {
                Some(r) => Ok(r),
                None => Err(
                    Fault::Internal("answer '"@ + id + "' has no numeric '"@ + name + "'"@),
                ),
            }
        },
    }
}

/// The probability that the answer to the yes/no question `id` is yes.
pub open spec fn noul_in(body: Tree, id: Seq<char>) -> Result<Real, Fault> {
    number_in(body, id, "noul"@)
}

/// The score in the answer to the question `id`.
pub open spec fn score_in(body: Tree, id: Seq<char>) -> Result<Real, Fault> {
    number_in(body, id, "score"@)
}

/// The confidence of the answer to the question `id`.
pub open spec fn confidence_in(body: Tree, id: Seq<char>) -> Result<Real, Fault> {
    number_in(body, id, "confidence"@)
}

/// The option that the answer to the question `id` chooses.
pub open spec fn choice_in(body: Tree, id: Seq<char>) -> Result<Seq<char>, Fault> {
    match answer_to(body, id) {
        None => Err(missing_answer(id)),
        Some(answer) => match spec_get(answer, "choice"@) {
            Some(Tree::Text(t)) => Ok(t),
            _ => Err(Fault::Internal("answer '"@ + id + "' has no 'choice'"@)),
        },
    }
}

/// Whether all fields of an object are numbers.
pub open spec fn all_numbers(fields: Map<Seq<char>, Tree>) -> bool {
    forall|k: Seq<char>| #[trigger] fields.contains_key(k) ==> spec_as_real(fields[k]) is Some
}

/// Whether `key` is the first key, in the order of keys, that holds no number.
pub open spec fn first_non_number(fields: Map<Seq<char>, Tree>, key: Seq<char>) -> bool {
    &&& fields.contains_key(key)
    &&& spec_as_real(fields[key]) is None
    &&& forall|k: Seq<char>| #[trigger]
        fields.contains_key(k) && spec_as_real(fields[k]) is None ==> k == key || before(key, k)
}

/// The probability of each option in the answer to the question `id`.
pub open spec fn probabilities_in(body: Tree, id: Seq<char>) -> Result<
    Map<Seq<char>, Real>,
    Fault,
> {
    match answer_to(body, id) {
        None => Err(missing_answer(id)),
        Some(answer) => match spec_get(answer, "probabilities"@) {
            Some(Tree::Object(fields)) => if all_numbers(fields) {
                Ok(fields.map_values(|t: Tree| spec_as_real(t)->0))
            } else {
                let key = choose|key: Seq<char>| first_non_number(fields, key);
                Err(
                    Fault::Internal(
                        "answer '"@ + id + "' has a non-numeric probability for '"@ + key + "'"@,
                    ),
                )
            },
            _ => Err(Fault::Internal("answer '"@ + id + "' has no 'probabilities' object"@)),
        },
    }
}

/// The option that the answer to the question `id` chooses, where it is one of `options`.
pub open spec fn choice_among(body: Tree, id: Seq<char>, options: Set<Seq<char>>) -> Result<
    Seq<char>,
    Fault,
> {
    match choice_in(body, id) {
        Err(e) => Err(e),
        Ok(choice) => if options.contains(choice) {
            Ok(choice)
        } else {
            Err(
                Fault::Internal(
                    "answer '"@ + id + "' has the choice '"@ + choice
                        + "', which is not one of its options"@,
                ),
            )
        },
    }
}

/// Whether all keys are among `options`.
pub open spec fn all_offered(
    probabilities: Map<Seq<char>, Real>,
    options: Set<Seq<char>>,
) -> bool {
    forall|k: Seq<char>| #[trigger] probabilities.contains_key(k) ==> options.contains(k)
}

/// Whether `key` is the first key, in the order of keys, that is not among `options`.
pub open spec fn first_foreign(
    probabilities: Map<Seq<char>, Real>,
    options: Set<Seq<char>>,
    key: Seq<char>,
) -> bool {
    &&& probabilities.contains_key(key)
    &&& !options.contains(key)
    &&& forall|k: Seq<char>| #[trigger]
        probabilities.contains_key(k) && !options.contains(k) ==> k == key || before(key, k)
}

/// The probability of each option in the answer to the question `id`, where all that it
/// names are among `options`.
pub open spec fn probabilities_among(
    body: Tree,
    id: Seq<char>,
    options: Set<Seq<char>>,
) -> Result<Map<Seq<char>, Real>, Fault> {
    match probabilities_in(body, id) {
        Err(e) => Err(e),
        Ok(probabilities) => if all_offered(probabilities, options) {
            Ok(probabilities)
        } else {
            let key = choose|key: Seq<char>| first_foreign(probabilities, options, key);
            Err(
                Fault::Internal(
                    "answer '"@ + id + "' has a probability for '"@ + key
                        + "', which is not one of its options"@,
                ),
            )
        },
    }
}

/// Finds the answer to the question `id`.
pub fn answer_object<'a>(body: &'a Json, id: &str) -> (r: Result<&'a Json, ToolError>)
    ensures
        match r {
            Ok(answer) => answer_to(body@, id@) == Some(answer@),
            Err(e) => answer_to(body@, id@) is None && e@ == missing_answer(id@),
        },
{
    let found = match body.get("answers") {
        Some(answers) => answers.get(id),
        None => None,
    };
    match found {
        Some(answer) => Ok(answer),
        None => Err(internal_error(join3("TypeSafe response is missing answer '", id, "'"))),
    }
}

/// Reads the number `name` in the answer to the question `id`.
fn answer_number(body: &Json, id: &str, name: &str) -> (r: Result<Real, ToolError>)
    ensures
        match r {
            Ok(x) => number_in(body@, id@, name@) == Ok::<Real, Fault>(x),
            Err(e) => number_in(body@, id@, name@) == Err::<Real, Fault>(e@),
        },
{
    match answer_object(body, id) {
        Err(e) => Err(e),
        Ok(answer) => {
            let value = match answer.get(name) {
                Some(v) => v.as_real(),
                None => None,
            };
            match value {
                Some(x) => Ok(x),
                None => Err(
                    internal_error(join5("answer '", id, "' has no numeric '", name, "'")),
                ),
            }
        },
    }
}

/// Reads the probability of a yes.
pub fn answer_noul(body: &Json, id: &str) -> (r: Result<Real, ToolError>)
    ensures
        match r {
            Ok(x) => noul_in(body@, id@) == Ok::<Real, Fault>(x),
            Err(e) => noul_in(body@, id@) == Err::<Real, Fault>(e@),
        },
{
    answer_number(body, id, "noul")
}

/// Reads the score.
pub fn answer_score(body: &Json, id: &str) -> (r: Result<Real, ToolError>)
    ensures
        match r {
            Ok(x) => score_in(body@, id@) == Ok::<Real, Fault>(x),
            Err(e) => score_in(body@, id@) == Err::<Real, Fault>(e@),
        },
{
    answer_number(body, id, "score")
}

/// Reads the confidence.
pub fn answer_confidence(body: &Json, id: &str) -> (r: Result<Real, ToolError>)
    ensures
        match r {
            Ok(x) => confidence_in(body@, id@) == Ok::<Real, Fault>(x),
            Err(e) => confidence_in(body@, id@) == Err::<Real, Fault>(e@),
        },
{
    answer_number(body, id, "confidence")
}

/// Reads the chosen option.
pub fn answer_choice(body: &Json, id: &str) -> (r: Result<String, ToolError>)
    ensures
        match r {
            Ok(s) => choice_in(body@, id@) == Ok::<Seq<char>, Fault>(s@),
            Err(e) => choice_in(body@, id@) == Err::<Seq<char>, Fault>(e@),
        },
{
    match answer_object(body, id) {
        Err(e) => Err(e),
        Ok(answer) => {
            let value = match answer.get("choice") {
                Some(v) => v.as_text(),
                None => None,
            };
            match value {
                Some(s) => Ok(s.clone()),
                None => Err(internal_error(join3("answer '", id, "' has no 'choice'"))),
            }
        },
    }
}

/// What was found where a probability belongs.
struct Reading {
    value: Option<Real>,
}

impl View for Reading {
    type V = Option<Real>;

    closed spec fn view(&self) -> Option<Real> {
        self.value
    }
}

/// Reads the fields of an object as numbers.
fn readings(fields: &Vec<(String, Json)>) -> (r: Table<Reading>)
    ensures
        r@ == fields_map(fields@).map_values(|t: Tree| spec_as_real(t)),
        walks(&r),
{
    let mut read: Table<Reading> = Table::new();
    let mut i: usize = 0;
    assert(fields@.take(0) =~= Seq::empty());
    assert(read@ =~= fields_map(fields@.take(0)).map_values(|t: Tree| spec_as_real(t)));
    while i < fields.len()
        invariant
            i <= fields.len(),
            walks(&read),
            read@ == fields_map(fields@.take(i as int)).map_values(|t: Tree| spec_as_real(t)),
        decreases fields.len() - i,
    {
        proof {
            lemma_fields_push(fields@.take(i as int), fields@[i as int]);
            assert(fields@.take(i as int).push(fields@[i as int]) =~= fields@.take(i + 1));
        }
        read.insert(fields[i].0.clone(), Reading { value: fields[i].1.as_real() });
        assert(read@ =~= fields_map(fields@.take(i + 1)).map_values(|t: Tree| spec_as_real(t)));
        i = i + 1;
    }
    assert(fields@.take(i as int) =~= fields@);
    read
}

/// The first key without a number is only one.
proof fn lemma_first_non_number(fields: Map<Seq<char>, Tree>, key: Seq<char>)
    requires
        first_non_number(fields, key),
    ensures
        !all_numbers(fields),
        key == choose|k: Seq<char>| first_non_number(fields, k),
{
    let other = choose|k: Seq<char>| first_non_number(fields, k);
    assert(first_non_number(fields, other));
    if key != other {
        assert(before(key, other));
        assert(before(other, key));
        lemma_before_transitive(key, other, key);
        lemma_before_irreflexive(key);
    }
}

/// Reads the probability of each option.
pub fn answer_probabilities(body: &Json, id: &str) -> (r: Result<Table<Real>, ToolError>)
    ensures
        match r {
            Ok(t) => probabilities_in(body@, id@) == Ok::<Map<Seq<char>, Real>, Fault>(t@)
                && walks(&t),
            Err(e) => probabilities_in(body@, id@) == Err::<Map<Seq<char>, Real>, Fault>(e@),
        },
{
    let answer = match answer_object(body, id) {
        Err(e) => {
            return Err(e);
        },
        Ok(answer) => answer,
    };
    let fields = match answer.get("probabilities") {
        Some(Json::Object(fields)) => fields,
        _ => {
            return Err(internal_error(join3("answer '", id, "' has no 'probabilities' object")));
        },
    };
    let ghost held = fields_map(fields@);
    let read = readings(fields);
    let n = read.len();
    let mut out: Table<Real> = Table::new();
    let mut i: usize = 0;
    while i < n
        invariant
            i <= n,
            n == read.keys().len(),
            walks(&read),
            walks(&out),
            read@ == held.map_values(|t: Tree| spec_as_real(t)),
            answer_to(body@, id@) is Some,
            spec_get(answer_to(body@, id@)->0, "probabilities"@) == Some(Tree::Object(held)),
            forall|k: Seq<char>| #[trigger]
                out@.contains_key(k) <==> read.keys().take(i as int).contains(k),
            forall|k: Seq<char>| #[trigger]
                out@.contains_key(k) ==> read@[k] == Some(out@[k]),
        decreases n - i,
    {
        proof {
            lemma_walk_step(read.keys(), i as int);
        }
        let ghost key = read.keys()[i as int];
        assert(read@.contains_key(key));
        match read.value_at(i).value {
            Some(x) => {
                out.insert(read.key_at(i).clone(), x);
            },
            None => {
                proof {
                    assert(spec_as_real(held[key]) is None);
                    assert forall|k: Seq<char>| #[trigger]
                        held.contains_key(k) && spec_as_real(held[k]) is None implies k == key
                        || before(key, k) by {
                        assert(read@.contains_key(k));
                        let j = read.keys().index_of(k);
                        assert(read.keys()[j] == k);
                        if j < i {
                            assert(read.keys().take(i as int)[j] == k);
                            assert(out@.contains_key(k));
                        }
                    }
                    assert(first_non_number(held, key));
                    lemma_first_non_number(held, key);
                }
                return Err(
                    internal_error(
                        join5(
                            "answer '",
                            id,
                            "' has a non-numeric probability for '",
                            read.key_at(i),
                            "'",
                        ),
                    ),
                );
            },
        }
        i = i + 1;
    }
    proof {
        assert(read.keys().take(i as int) =~= read.keys());
        assert forall|k: Seq<char>| #[trigger] held.contains_key(k) implies spec_as_real(
            held[k],
        ) is Some by {
            assert(read@.contains_key(k));
            assert(out@.contains_key(k));
        }
        assert forall|k: Seq<char>| #[trigger] out@.contains_key(k) implies held.contains_key(k) by {
            let j = read.keys().index_of(k);
            assert(read@.contains_key(read.keys()[j]));
        }
        assert(out@ =~= held.map_values(|t: Tree| spec_as_real(t)->0));
    }
    Ok(out)
}

/// Reads the chosen option, which must be one of `options`.
pub fn answer_choice_among(body: &Json, id: &str, options: &Table<Json>) -> (r: Result<
    String,
    ToolError,
>)
    ensures
        match r {
            Ok(s) => choice_among(body@, id@, options@.dom()) == Ok::<Seq<char>, Fault>(s@),
            Err(e) => choice_among(body@, id@, options@.dom()) == Err::<Seq<char>, Fault>(e@),
        },
{
    match answer_choice(body, id) {
        Err(e) => Err(e),
        Ok(choice) => if options.contains_key(&choice) {
            Ok(choice)
        } else {
            Err(
                internal_error(
                    join5(
                        "answer '",
                        id,
                        "' has the choice '",
                        &choice,
                        "', which is not one of its options",
                    ),
                ),
            )
        },
    }
}

/// The first key that was not offered is only one.
proof fn lemma_first_foreign(
    probabilities: Map<Seq<char>, Real>,
    options: Set<Seq<char>>,
    key: Seq<char>,
)
    requires
        first_foreign(probabilities, options, key),
    ensures
        !all_offered(probabilities, options),
        key == choose|k: Seq<char>| first_foreign(probabilities, options, k),
{
    let other = choose|k: Seq<char>| first_foreign(probabilities, options, k);
    assert(first_foreign(probabilities, options, other));
    if key != other {
        assert(before(key, other));
        assert(before(other, key));
        lemma_before_transitive(key, other, key);
        lemma_before_irreflexive(key);
    }
}

/// Reads the probability of each option, all of which must be among `options`.
pub fn answer_probabilities_among(body: &Json, id: &str, options: &Table<Json>) -> (r: Result<
    Table<Real>,
    ToolError,
>)
    ensures
        match r {
            Ok(t) => probabilities_among(body@, id@, options@.dom()) == Ok::<
                Map<Seq<char>, Real>,
                Fault,
            >(t@) && walks(&t),
            Err(e) => probabilities_among(body@, id@, options@.dom()) == Err::<
                Map<Seq<char>, Real>,
                Fault,
            >(e@),
        },
{
    let read = match answer_probabilities(body, id) {
        Err(e) => {
            return Err(e);
        },
        Ok(read) => read,
    };
    let ghost offered = options@.dom();
    let n = read.len();
    let mut i: usize = 0;
    while i < n
        invariant
            i <= n,
            n == read.keys().len(),
            walks(&read),
            offered == options@.dom(),
            probabilities_in(body@, id@) == Ok::<Map<Seq<char>, Real>, Fault>(read@),
            forall|j: int| 0 <= j < i ==> offered.contains(#[trigger] read.keys()[j]),
        decreases n - i,
    {
        let key = read.key_at(i);
        if !options.contains_key(key) {
            proof {
                assert(read@.contains_key(read.keys()[i as int]));
                assert forall|k: Seq<char>| #[trigger]
                    read@.contains_key(k) && !offered.contains(k) implies k == key@ || before(
                    key@,
                    k,
                ) by {
                    let j = read.keys().index_of(k);
                    assert(read.keys()[j] == k);
                    if j > i {
                        assert(before(read.keys()[i as int], read.keys()[j]));
                    }
                }
                assert(first_foreign(read@, offered, key@));
                lemma_first_foreign(read@, offered, key@);
            }
            return Err(
                internal_error(
                    join5(
                        "answer '",
                        id,
                        "' has a probability for '",
                        key,
                        "', which is not one of its options",
                    ),
                ),
            );
        }
        i = i + 1;
    }
    assert forall|k: Seq<char>| #[trigger] read@.contains_key(k) implies offered.contains(k) by {
        let j = read.keys().index_of(k);
        assert(read.keys()[j] == k);
    }
    Ok(read)
}

/// Whether a response answers the question `id`.
pub open spec fn answered(body: Tree, id: Seq<char>) -> bool {
    has_field(body, "answers"@) && has_field(at(body, "answers"@), id)
}

/// What a response answers to the question `id`.
pub open spec fn answer_at(body: Tree, id: Seq<char>) -> Tree {
    at(at(body, "answers"@), id)
}

/// A probability, a score and a confidence are read where the answer to the question holds
/// them under their names as numbers, and nowhere else.
pub proof fn law_numbers_in_answers(body: Tree, id: Seq<char>, r: Real)
    ensures
        noul_in(body, id) == Ok::<Real, Fault>(r) <==> answered(body, id) && has_field(
            answer_at(body, id),
            "noul"@,
        ) && spec_as_real(at(answer_at(body, id), "noul"@)) == Some(r),
        score_in(body, id) == Ok::<Real, Fault>(r) <==> answered(body, id) && has_field(
            answer_at(body, id),
            "score"@,
        ) && spec_as_real(at(answer_at(body, id), "score"@)) == Some(r),
        confidence_in(body, id) == Ok::<Real, Fault>(r) <==> answered(body, id) && has_field(
            answer_at(body, id),
            "confidence"@,
        ) && spec_as_real(at(answer_at(body, id), "confidence"@)) == Some(r),
{
}

/// What is missing is said: that there is no answer, or what the answer lacks.
pub proof fn law_faults_in_answers(body: Tree, id: Seq<char>)
    ensures
        !answered(body, id) ==> {
            let fault = Fault::Internal("TypeSafe response is missing answer '"@ + id + "'"@);
            &&& noul_in(body, id) == Err::<Real, Fault>(fault)
            &&& score_in(body, id) == Err::<Real, Fault>(fault)
            &&& confidence_in(body, id) == Err::<Real, Fault>(fault)
            &&& choice_in(body, id) == Err::<Seq<char>, Fault>(fault)
            &&& probabilities_in(body, id) == Err::<Map<Seq<char>, Real>, Fault>(fault)
        },
        answered(body, id) ==> {
            &&& noul_in(body, id) is Err ==> noul_in(body, id)->Err_0 == Fault::Internal(
                "answer '"@ + id + "' has no numeric '"@ + "noul"@ + "'"@,
            )
            &&& score_in(body, id) is Err ==> score_in(body, id)->Err_0 == Fault::Internal(
                "answer '"@ + id + "' has no numeric '"@ + "score"@ + "'"@,
            )
            &&& confidence_in(body, id) is Err ==> confidence_in(body, id)->Err_0
                == Fault::Internal("answer '"@ + id + "' has no numeric '"@ + "confidence"@ + "'"@)
            &&& choice_in(body, id) is Err ==> choice_in(body, id)->Err_0 == Fault::Internal(
                "answer '"@ + id + "' has no 'choice'"@,
            )
        },
{
}

/// A choice is read where the answer holds it as text, and among options only where it is
/// one of them.
pub proof fn law_choices_in_answers(
    body: Tree,
    id: Seq<char>,
    options: Set<Seq<char>>,
    choice: Seq<char>,
)
    ensures
        choice_in(body, id) == Ok::<Seq<char>, Fault>(choice) <==> answered(body, id) && holds(
            answer_at(body, id),
            "choice"@,
            Tree::Text(choice),
        ),
        choice_among(body, id, options) == Ok::<Seq<char>, Fault>(choice) <==> options.contains(
            choice,
        ) && choice_in(body, id) == Ok::<Seq<char>, Fault>(choice),
{
}

/// Probabilities are read where the answer holds an object of numbers: each option that it
/// names, with its number, and no other; among options only where all named are among them.
pub proof fn law_probabilities_in_answers(
    body: Tree,
    id: Seq<char>,
    options: Set<Seq<char>>,
    p: Map<Seq<char>, Real>,
)
    ensures
        probabilities_in(body, id) == Ok::<Map<Seq<char>, Real>, Fault>(p) <==> {
            let fields = at(answer_at(body, id), "probabilities"@);
            &&& answered(body, id)
            &&& has_field(answer_at(body, id), "probabilities"@)
            &&& fields_are(fields, p.dom())
            &&& forall|k: Seq<char>| #[trigger]
                p.contains_key(k) ==> spec_as_real(at(fields, k)) == Some(p[k])
        },
        probabilities_among(body, id, options) == Ok::<Map<Seq<char>, Real>, Fault>(p) <==> p.dom()
            <= options && probabilities_in(body, id) == Ok::<Map<Seq<char>, Real>, Fault>(p),
{
    let fields = at(answer_at(body, id), "probabilities"@);
    if answered(body, id) && has_field(answer_at(body, id), "probabilities"@) && fields is Object {
        let held = fields->Object_0;
        if fields_are(fields, p.dom()) && (forall|k: Seq<char>| #[trigger]
            p.contains_key(k) ==> spec_as_real(at(fields, k)) == Some(p[k])) {
            assert(all_numbers(held)) by {
                assert forall|k: Seq<char>| #[trigger] held.contains_key(k) implies spec_as_real(
                    held[k],
                ) is Some by {
                    assert(p.dom().contains(k));
                    assert(p.contains_key(k));
                }
            }
            assert(p =~= held.map_values(|t: Tree| spec_as_real(t)->0)) by {
                assert forall|k: Seq<char>| #[trigger] p.contains_key(k) implies p[k]
                    == spec_as_real(held[k])->0 by {
                    assert(spec_as_real(at(fields, k)) == Some(p[k]));
                }
            }
        }
        if probabilities_in(body, id) == Ok::<Map<Seq<char>, Real>, Fault>(p) {
            assert(held.dom() =~= p.dom());
        }
    }
    if probabilities_in(body, id) == Ok::<Map<Seq<char>, Real>, Fault>(p) {
        assert(all_offered(p, options) <==> p.dom() <= options) by {
            if all_offered(p, options) {
                assert forall|k: Seq<char>| p.dom().contains(k) implies options.contains(k) by {
                    assert(p.contains_key(k));
                }
            }
            if p.dom() <= options {
                assert forall|k: Seq<char>| #[trigger] p.contains_key(k) implies options.contains(
                    k,
                ) by {
                    assert(p.dom().contains(k));
                }
            }
        }
    }
}

/// An answer that names what was not offered is refused, and the refusal says which: the
/// choice, or of the probabilities the first, in the order of the names, that is not among
/// the options or is no number.
pub proof fn law_foreign_answers_are_named(
    body: Tree,
    id: Seq<char>,
    options: Set<Seq<char>>,
    key: Seq<char>,
)
    ensures
        choice_in(body, id) == Ok::<Seq<char>, Fault>(key) && !options.contains(key)
            ==> choice_among(body, id, options) == Err::<Seq<char>, Fault>(
            Fault::Internal(
                "answer '"@ + id + "' has the choice '"@ + key
                    + "', which is not one of its options"@,
            ),
        ),
        choice_in(body, id) is Err ==> choice_among(body, id, options) == choice_in(body, id),
        probabilities_in(body, id) matches Ok(p) ==> (p.contains_key(key) && !options.contains(key)
            && (forall|k: Seq<char>| #[trigger]
            p.contains_key(k) && !options.contains(k) ==> k == key || before(key, k))
            ==> probabilities_among(body, id, options) == Err::<Map<Seq<char>, Real>, Fault>(
            Fault::Internal(
                "answer '"@ + id + "' has a probability for '"@ + key
                    + "', which is not one of its options"@,
            ),
        )),
        probabilities_in(body, id) is Err ==> probabilities_among(body, id, options)
            == probabilities_in(body, id),
        answered(body, id) ==> {
            let answer = answer_at(body, id);
            let fields = at(answer, "probabilities"@);
            &&& !(has_field(answer, "probabilities"@) && fields is Object) ==> probabilities_in(
                body,
                id,
            ) == Err::<Map<Seq<char>, Real>, Fault>(
                Fault::Internal("answer '"@ + id + "' has no 'probabilities' object"@),
            )
            &&& has_field(answer, "probabilities"@) && has_field(fields, key) && spec_as_real(
                at(fields, key),
            ) is None && (forall|k: Seq<char>| #[trigger]
                has_field(fields, k) && spec_as_real(at(fields, k)) is None ==> k == key || before(
                    key,
                    k,
                )) ==> probabilities_in(body, id) == Err::<Map<Seq<char>, Real>, Fault>(
                Fault::Internal(
                    "answer '"@ + id + "' has a non-numeric probability for '"@ + key + "'"@,
                ),
            )
        },
{
    if probabilities_in(body, id) is Ok {
        let p = probabilities_in(body, id)->Ok_0;
        if p.contains_key(key) && !options.contains(key) && (forall|k: Seq<char>| #[trigger]
            p.contains_key(k) && !options.contains(k) ==> k == key || before(key, k)) {
            assert(first_foreign(p, options, key));
            lemma_first_foreign(p, options, key);
        }
    }
    if answered(body, id) && has_field(answer_at(body, id), "probabilities"@) {
        let document = at(answer_at(body, id), "probabilities"@);
        if document is Object && has_field(document, key) && spec_as_real(at(document, key)) is None
            && (forall|k: Seq<char>| #[trigger]
            has_field(document, k) && spec_as_real(at(document, k)) is None ==> k == key || before(
                key,
                k,
            )) {
            let fields = document->Object_0;
            assert forall|k: Seq<char>| #[trigger]
                fields.contains_key(k) && spec_as_real(fields[k]) is None implies k == key
                || before(key, k) by {
                assert(has_field(document, k));
            }
            assert(first_non_number(fields, key));
            lemma_first_non_number(fields, key);
        }
    }
}

/// A number is read in an answer exactly where the response gives it under the question's id
/// and its own name.
pub proof fn law_numbers_are_read_in_answers(
    body: Json,
    id: &str,
    noul: Result<Real, ToolError>,
    score: Result<Real, ToolError>,
    confidence: Result<Real, ToolError>,
)
    requires
        call_ensures(answer_noul, (&body, id), noul),
        call_ensures(answer_score, (&body, id), score),
        call_ensures(answer_confidence, (&body, id), confidence),
    ensures
        noul is Ok <==> gives_number(body@, id@, "noul"@),
        noul matches Ok(x) ==> spec_as_real(at(answer_at(body@, id@), "noul"@)) == Some(x),
        score is Ok <==> gives_number(body@, id@, "score"@),
        score matches Ok(x) ==> spec_as_real(at(answer_at(body@, id@), "score"@)) == Some(x),
        confidence is Ok <==> gives_number(body@, id@, "confidence"@),
        confidence matches Ok(x) ==> spec_as_real(at(answer_at(body@, id@), "confidence"@))
            == Some(x),
{
    law_numbers_in_answers(body@, id@, spec_as_real(at(answer_at(body@, id@), "noul"@))->0);
    law_numbers_in_answers(body@, id@, spec_as_real(at(answer_at(body@, id@), "score"@))->0);
    law_numbers_in_answers(body@, id@, spec_as_real(at(answer_at(body@, id@), "confidence"@))->0);
}

/// Whether a response gives a number under a question's id and the name `name`.
pub open spec fn gives_number(body: Tree, id: Seq<char>, name: Seq<char>) -> bool {
    &&& answered(body, id)
    &&& has_field(answer_at(body, id), name)
    &&& spec_as_real(at(answer_at(body, id), name)) is Some
}

/// A choice is read in an answer exactly where the response gives one under the question's
/// id, and among options only where it is one of them.
pub proof fn law_choices_are_read_in_answers(
    body: Json,
    id: &str,
    options: Table<Json>,
    any: Result<String, ToolError>,
    offered: Result<String, ToolError>,
)
    requires
        call_ensures(answer_choice, (&body, id), any),
        call_ensures(answer_choice_among, (&body, id, &options), offered),
    ensures
        any is Ok <==> answered(body@, id@) && has_field(answer_at(body@, id@), "choice"@) && at(
            answer_at(body@, id@),
            "choice"@,
        ) is Text,
        any matches Ok(s) ==> holds(answer_at(body@, id@), "choice"@, Tree::Text(s@)),
        offered is Ok <==> any is Ok && options@.contains_key(any->Ok_0@),
        offered matches Ok(s) ==> any is Ok && s@ == any->Ok_0@,
{
    let choice = at(answer_at(body@, id@), "choice"@)->Text_0;
    law_choices_in_answers(body@, id@, options@.dom(), choice);
    if any is Ok {
        law_choices_in_answers(body@, id@, options@.dom(), any->Ok_0@);
    }
    if offered is Ok {
        law_choices_in_answers(body@, id@, options@.dom(), offered->Ok_0@);
    }
}

/// Probabilities are read in an answer as the response gives them, each under its name, and
/// among options only where all of them are options.
pub proof fn law_probabilities_are_read_in_answers(
    body: Json,
    id: &str,
    options: Table<Json>,
    any: Result<Table<Real>, ToolError>,
    offered: Result<Table<Real>, ToolError>,
)
    requires
        call_ensures(answer_probabilities, (&body, id), any),
        call_ensures(answer_probabilities_among, (&body, id, &options), offered),
    ensures
        any matches Ok(p) ==> {
            let fields = at(answer_at(body@, id@), "probabilities"@);
            &&& answered(body@, id@)
            &&& has_field(answer_at(body@, id@), "probabilities"@)
            &&& fields_are(fields, p@.dom())
            &&& forall|k: Seq<char>| #[trigger]
                p@.contains_key(k) ==> spec_as_real(at(fields, k)) == Some(p@[k])
        },
        offered is Ok <==> any is Ok && any->Ok_0@.dom() <= options@.dom(),
        offered matches Ok(p) ==> any is Ok && p@ == any->Ok_0@,
{
    if any is Ok {
        law_probabilities_in_answers(body@, id@, options@.dom(), any->Ok_0@);
    }
    if offered is Ok {
        law_probabilities_in_answers(body@, id@, options@.dom(), offered->Ok_0@);
    }
}

} // verus!
