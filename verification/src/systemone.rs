//! One state, any typed questions, one call.

use crate::error::{Fault, ToolError};
use crate::json::{at, fields_are, holds, Json, Tree};
use crate::question::{
    call_body, call_tree, law_calls_hold_what_they_ask, law_first_fault_is_reported,
    model_or_default, question_fault, question_tree, questions_fault, spec_model,
    validate_questions, Question,
};
use crate::table::Table;
use vstd::prelude::*;

verus! {

/// What `systemone` takes.
pub struct SystemOneArgs {
    pub state: serde_json::Value,
    pub questions: Table<Question>,
    pub model: Option<String>,
}

/// The body of the call, whose response is the result as it stands; refuses questions that
/// cannot be asked before anything is asked.
pub fn systemone(args: SystemOneArgs) -> (r: Result<Json, ToolError>)
    ensures
        match r {
            Ok(body) => questions_fault(args.questions@) is None && body@
                == call_tree(Tree::Given(args.state), args.questions@, spec_model(args.model)),
            Err(e) => questions_fault(args.questions@) is Some && e@
                == Fault::InvalidParams(
                questions_fault(args.questions@)->0,
            ),
        },
{
    match validate_questions(&args.questions) {
        Err(e) => Err(e),
        Ok(_) => {
            let model = model_or_default(args.model);
            Ok(call_body(Json::Given(args.state), &args.questions, &model))
        },
    }
}

/// One call is made of what the caller gives, the state as it is, each question under its id
/// and the model or `jev-latest`, wherever the questions can be asked.
pub proof fn law_one_call_is_made(args: SystemOneArgs, r: Result<Json, ToolError>)
    requires
        args.questions@.dom().finite(),
        call_ensures(systemone, (args,), r),
    ensures
        r is Ok <==> args.questions@.len() > 0 && (forall|id: Seq<char>| #[trigger]
            args.questions@.contains_key(id) ==> question_fault(id, args.questions@[id]) is None),
        r matches Ok(body) ==> {
            &&& fields_are(body@, set!["state"@, "model"@, "questions"@])
            &&& holds(body@, "state"@, Tree::Given(args.state))
            &&& args.model matches Some(m) ==> holds(body@, "model"@, Tree::Text(m@))
            &&& args.model is None ==> holds(body@, "model"@, Tree::Text("jev-latest"@))
            &&& fields_are(at(body@, "questions"@), args.questions@.dom())
            &&& forall|id: Seq<char>| #[trigger]
                args.questions@.contains_key(id) ==> holds(
                    at(body@, "questions"@),
                    id,
                    question_tree(args.questions@[id]),
                )
        },
        r matches Err(e) ==> e@ is InvalidParams,
{
    law_first_fault_is_reported(args.questions@);
    law_calls_hold_what_they_ask(
        Tree::Given(args.state),
        args.questions@,
        spec_model(args.model),
    );
}

} // verus!
