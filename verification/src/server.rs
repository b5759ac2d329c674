//! How the service is reached, and what its refusals are reported as.

use crate::error::{internal_error, Fault, ToolError};
use crate::text::{decimal, decimal_text, join2, join3};
use vstd::prelude::*;
use vstd::string::*;

verus! {

/// Where the service is, and the key with which it is asked.
#[derive(Clone, Debug)]
pub struct TypeSafeServer {
    pub typesafe_api_key: Option<String>,
    pub typesafe_base_url: String,
}

/// A text without the slashes at its end.
pub open spec fn without_slashes(url: Seq<char>) -> Seq<char>
    decreases url.len(),
{
    if url.len() > 0 && url.last() == '/' {
        without_slashes(url.drop_last())
    } else {
        url
    }
}

/// A text without the slashes at its end.
fn trim_slashes(url: &str) -> (r: String)
    ensures
        r@ == without_slashes(url@),
{
    let mut end = url.unicode_len();
    assert(url@.take(end as int) =~= url@);
    while end > 0 && url.get_char(end - 1) == '/'
        invariant
            end <= url@.len(),
            without_slashes(url@) == without_slashes(url@.take(end as int)),
        decreases end,
    {
        assert(url@.take(end as int).drop_last() =~= url@.take(end - 1));
        end = end - 1;
    }
    assert(url@.subrange(0, end as int) =~= url@.take(end as int));
    url.substring_char(0, end).to_string()
}

impl TypeSafeServer {
    pub fn new(typesafe_api_key: Option<String>, typesafe_base_url: String) -> (r: Self)
        ensures
            r.typesafe_api_key == typesafe_api_key,
            r.typesafe_base_url == typesafe_base_url,
    {
        TypeSafeServer { typesafe_api_key, typesafe_base_url }
    }

    /// The key, without which nothing is asked.
    pub fn require_api_key(&self) -> (r: Result<&String, ToolError>)
        ensures
            match r {
                Ok(key) => self.typesafe_api_key == Some(*key),
                Err(e) => self.typesafe_api_key is None && e@ == Fault::NotConfigured,
            },
    {
        match &self.typesafe_api_key {
            Some(key) => Ok(key),
            None => Err(ToolError::NotConfigured),
        }
    }

    /// What a call shows to be let in.
    pub fn authorization(&self) -> (r: Result<String, ToolError>)
        ensures
            match r {
                Ok(text) => self.typesafe_api_key is Some && text@ == "Bearer "@
                    + self.typesafe_api_key->0@,
                Err(e) => self.typesafe_api_key is None && e@ == Fault::NotConfigured,
            },
    {
        match self.require_api_key() {
            Ok(key) => Ok(join2("Bearer ", key)),
            Err(e) => Err(e),
        }
    }

    /// Where questions are sent.
    pub fn systemone_url(&self) -> (r: String)
        ensures
            r@ == without_slashes(self.typesafe_base_url@) + "/v1/systemone"@,
    {
        join2(&trim_slashes(&self.typesafe_base_url), "/v1/systemone")
    }

    /// Where the models are listed.
    pub fn models_url(&self) -> (r: String)
        ensures
            r@ == without_slashes(self.typesafe_base_url@) + "/v1/models"@,
    {
        join2(&trim_slashes(&self.typesafe_base_url), "/v1/models")
    }
}

/// The phrase that `reqwest::StatusCode::canonical_reason` gives for a status, or `None`
/// where it knows none.
pub uninterp spec fn reason_phrase(code: int) -> Option<Seq<char>>;

/// `reqwest::StatusCode::canonical_reason` of the status that
/// `reqwest::StatusCode::from_u16` makes of `code`: the phrase depends on the code alone,
/// and there is none for a code that is no status. Which phrase belongs to which status is
/// not stated.
#[verifier::external_body]
fn canonical_reason(code: u16) -> (r: Option<&'static str>)
    ensures
        match r {
            Some(phrase) => reason_phrase(code as int) == Some(phrase@) && 100 <= code <= 999,
            None => reason_phrase(code as int) is None,
        },
{
    reqwest::StatusCode::from_u16(code).ok()?.canonical_reason()
}

/// A status as it is shown: its code and the phrase that goes with it.
pub open spec fn status_line(code: nat, phrase: Option<Seq<char>>) -> Seq<char> {
    decimal(code) + " "@ + (match phrase {
        Some(p) => p,
        None => "<unknown status code>"@,
    })
}

/// Whether a status says that a request was served.
pub open spec fn spec_is_success(code: u16) -> bool {
    200 <= code <= 299
}

/// Whether a status says that a request was served.
pub fn is_success(code: u16) -> (r: bool)
    ensures
        r == spec_is_success(code),
{
    200 <= code && code <= 299
}

/// What can be done about a status.
pub open spec fn hint(code: u16) -> Seq<char> {
    if code == 401 {
        " (check the configured TypeSafe API key)"@
    } else if code == 429 {
        " (rate limit exceeded; retry after a short delay)"@
    } else if code == 529 {
        " (TypeSafe is temporarily overloaded; retry after a short delay)"@
    } else {
        ""@
    }
}

/// A phrase that may be there.
pub open spec fn phrase_text(phrase: Option<&str>) -> Option<Seq<char>> {
    match phrase {
        Some(p) => Some(p@),
        None => None,
    }
}

/// What a refusal with the status `code`, the phrase `phrase` and the text `text` is
/// reported as, with what can be done about it.
pub open spec fn refusal(
    code: nat,
    phrase: Option<Seq<char>>,
    advice: Seq<char>,
    text: Seq<char>,
) -> Fault {
    Fault::Internal(
        "TypeSafe API returned HTTP "@ + status_line(code, phrase) + advice + ": "@ + text,
    )
}

fn refused(code: u16, phrase: Option<&str>, advice: &str, text: &str) -> (r: ToolError)
    ensures
        r@ == refusal(code as nat, phrase_text(phrase), advice@, text@),
{
    let status = match phrase {
        Some(p) => join3(&decimal_text(code as u64), " ", p),
        None => join3(&decimal_text(code as u64), " ", "<unknown status code>"),
    };
    let head = join3("TypeSafe API returned HTTP ", &status, advice);
    internal_error(join3(&head, ": ", text))
}

/// What a refusal is reported as where questions were asked and the phrase `phrase` goes
/// with the status.
pub fn systemone_failure_with(code: u16, phrase: Option<&str>, text: &str) -> (r: ToolError)
    ensures
        r@ == refusal(code as nat, phrase_text(phrase), hint(code), text@),
{
    let advice = if code == 401 {
        " (check the configured TypeSafe API key)"
    } else if code == 429 {
        " (rate limit exceeded; retry after a short delay)"
    } else if code == 529 {
        " (TypeSafe is temporarily overloaded; retry after a short delay)"
    } else {
        ""
    };
    refused(code, phrase, advice, text)
}

/// What a refusal is reported as where questions were asked.
pub fn systemone_failure(code: u16, text: &str) -> (r: ToolError)
    ensures
        r@ == refusal(code as nat, reason_phrase(code as int), hint(code), text@),
{
    systemone_failure_with(code, canonical_reason(code), text)
}

/// What a refusal is reported as where the models were asked for and the phrase `phrase`
/// goes with the status.
pub fn models_failure_with(code: u16, phrase: Option<&str>, text: &str) -> (r: ToolError)
    ensures
        r@ == refusal(code as nat, phrase_text(phrase), Seq::empty(), text@),
{
    let r = refused(code, phrase, "", text);
    proof {
        reveal_strlit("");
        assert(""@ =~= Seq::<char>::empty());
    }
    r
}

/// What a refusal is reported as where the models were asked for.
pub fn models_failure(code: u16, text: &str) -> (r: ToolError)
    ensures
        r@ == refusal(code as nat, reason_phrase(code as int), Seq::empty(), text@),
{
    models_failure_with(code, canonical_reason(code), text)
}

/// Slashes at the end of the base URL make no difference to where requests go.
pub proof fn law_slashes_make_no_difference(url: Seq<char>)
    ensures
        without_slashes(url.push('/')) == without_slashes(url),
        without_slashes(url).len() > 0 ==> without_slashes(url).last() != '/',
        without_slashes(without_slashes(url)) == without_slashes(url),
    decreases url.len(),
{
    assert(url.push('/').drop_last() =~= url);
    if url.len() > 0 && url.last() == '/' {
        law_slashes_make_no_difference(url.drop_last());
    }
}

/// Nothing but slashes at the end is taken from a URL, and all of them are.
pub proof fn law_only_slashes_are_taken(url: Seq<char>)
    ensures
        without_slashes(url).len() <= url.len(),
        url.take(without_slashes(url).len() as int) == without_slashes(url),
        forall|i: int| without_slashes(url).len() <= i < url.len() ==> #[trigger] url[i] == '/',
        without_slashes(url).len() > 0 ==> without_slashes(url).last() != '/',
    decreases url.len(),
{
    if url.len() > 0 && url.last() == '/' {
        let shorter = url.drop_last();
        law_only_slashes_are_taken(shorter);
        assert(url.take(without_slashes(url).len() as int) =~= shorter.take(
            without_slashes(url).len() as int,
        ));
        assert forall|i: int| without_slashes(url).len() <= i < url.len() implies #[trigger] url[i]
            == '/' by {
            if i < shorter.len() {
                assert(shorter[i] == url[i]);
            }
        }
    } else {
        assert(url.take(url.len() as int) =~= url);
    }
}

/// A refusal is reported with the code, the phrase that goes with it or the remark that
/// there is none, what can be done about it, and the text that came with it. Only three
/// codes come with advice.
pub proof fn law_refusals_are_reported(
    code: u16,
    phrase: Option<Seq<char>>,
    advice: Seq<char>,
    text: Seq<char>,
)
    ensures
        phrase matches Some(p) ==> refusal(code as nat, phrase, advice, text) == Fault::Internal(
            "TypeSafe API returned HTTP "@ + (decimal(code as nat) + " "@ + p) + advice + ": "@
                + text,
        ),
        phrase is None ==> refusal(code as nat, phrase, advice, text) == Fault::Internal(
            "TypeSafe API returned HTTP "@ + (decimal(code as nat) + " "@
                + "<unknown status code>"@) + advice + ": "@ + text,
        ),
        code == 401 ==> hint(code) == " (check the configured TypeSafe API key)"@,
        code == 429 ==> hint(code) == " (rate limit exceeded; retry after a short delay)"@,
        code == 529 ==> hint(code)
            == " (TypeSafe is temporarily overloaded; retry after a short delay)"@,
        code != 401 && code != 429 && code != 529 ==> hint(code).len() == 0,
        spec_is_success(code) <==> code / 100 == 2,
{
    reveal_strlit("");
}

/// Requests go to the base URL without the slashes at its end, followed by one slash and the
/// path; however many slashes there are, they go to the same place.
pub proof fn law_where_requests_go(
    server: TypeSafeServer,
    slashed: TypeSafeServer,
    questions: String,
    slashed_questions: String,
    models: String,
)
    requires
        call_ensures(TypeSafeServer::systemone_url, (&server,), questions),
        call_ensures(TypeSafeServer::systemone_url, (&slashed,), slashed_questions),
        call_ensures(TypeSafeServer::models_url, (&server,), models),
        slashed.typesafe_base_url@ == server.typesafe_base_url@.push('/'),
    ensures
        slashed_questions@ == questions@,
        server.typesafe_base_url@.len() > 0 && server.typesafe_base_url@.last() != '/'
            ==> questions@ == server.typesafe_base_url@ + "/v1/systemone"@ && models@
            == server.typesafe_base_url@ + "/v1/models"@,
{
    law_slashes_make_no_difference(server.typesafe_base_url@);
}

/// A call shows the key exactly where there is one, and nothing is shown without.
pub proof fn law_the_key_is_shown(server: TypeSafeServer, r: Result<String, ToolError>)
    requires
        call_ensures(TypeSafeServer::authorization, (&server,), r),
    ensures
        r is Ok <==> server.typesafe_api_key is Some,
        r matches Ok(text) ==> text@ == "Bearer "@ + server.typesafe_api_key->0@,
        r matches Err(e) ==> e@ is NotConfigured,
{
}

/// A refusal of questions comes with advice for its code, and one of the models with none.
pub proof fn law_failures_are_reported(
    code: u16,
    text: &str,
    asking: ToolError,
    listing: ToolError,
)
    requires
        call_ensures(systemone_failure, (code, text), asking),
        call_ensures(models_failure, (code, text), listing),
    ensures
        asking@ == refusal(code as nat, reason_phrase(code as int), hint(code), text@),
        listing@ == refusal(code as nat, reason_phrase(code as int), Seq::empty(), text@),
        code != 401 && code != 429 && code != 529 ==> asking@ == listing@,
{
    reveal_strlit("");
    if code != 401 && code != 429 && code != 529 {
        assert(hint(code) =~= Seq::<char>::empty());
    }
}

} // verus!
