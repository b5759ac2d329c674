//! Which items of a list are the same thing, and the clusters that they make.

use crate::answer::{answer_at, answer_noul, answered, law_numbers_in_answers, noul_in};
use crate::bulk::{
    items_state, items_tree, law_answers_are_read_in_turn, lemma_read_stops, read_each,
};
use crate::cluster::{
    clusters, clusters_from_edges, connected, ends, law_clusters_are_components, lists, within,
};
use crate::error::{invalid_params_error, Fault, ToolError};
use crate::json::{at, fields_are, has_field, holds, real_tree, spec_as_real, Json, Tree};
use crate::question::{
    call_body, call_tree, law_calls_hold_what_they_ask, law_scopes_are_sent,
    law_yes_and_no_are_sent, model_follows, model_or_default, noul, noul_qv, scoped,
    scoped_instructions, spec_model, Question, QuestionView,
};
use crate::reals::{
    lemma_threshold_follows, spec_threshold, threshold, threshold_follows, Real, THREE_QUARTERS,
};
use crate::table::Table;
use crate::text::{
    decimal, decimal_text, join2, join3, join5, lemma_decimal_injective, lemma_numeral_ends,
};
use vstd::prelude::*;
use vstd::string::*;

verus! {

/// The most items that are compared pairwise.
pub const MAX_DEDUPE_ITEMS: usize = 64;

/// The most pairs that one call asks about.
pub const PAIRS_PER_CALL: usize = 150;

/// What `dedupe_items` takes.
pub struct DedupeItemsArgs {
    pub items: Vec<serde_json::Value>,
    pub criterion: Option<serde_json::Value>,
    pub threshold: Option<Real>,
    pub model: Option<String>,
}

/// Why a list of `n` items is refused.
pub open spec fn dedupe_fault(n: nat) -> Option<Seq<char>> {
    if n < 2 {
        Some("'items' must contain at least two items"@)
    } else if n > MAX_DEDUPE_ITEMS {
        Some(
            "'items' has "@ + decimal(n) + " entries; pairwise comparison supports at most "@
                + decimal(MAX_DEDUPE_ITEMS as nat)
                + " (split the list or pre-cluster it first)"@,
        )
    } else {
        None
    }
}

/// What it means that two items are the same.
pub open spec fn same_criterion(asked: Option<serde_json::Value>) -> Tree {
    match asked {
        Some(v) => Tree::Given(v),
        None => Tree::Text(
            "Do these two items refer to the same real-world entity (a duplicate, an alias, or the same thing under different wording)?"@,
        ),
    }
}

/// The pairs of the item `i` with the items after it.
pub open spec fn pairs_with(n: nat, i: int) -> Seq<(usize, usize)> {
    Seq::new((n - i - 1) as nat, |k: int| (i as usize, (i + 1 + k) as usize))
}

/// The pairs whose first item lies below `upto`.
pub open spec fn pairs_below(n: nat, upto: nat) -> Seq<(usize, usize)>
    decreases upto,
{
    if upto == 0 {
        Seq::empty()
    } else {
        pairs_below(n, (upto - 1) as nat) + pairs_with(n, upto - 1)
    }
}

/// All pairs of `n` items.
pub open spec fn all_pairs(n: nat) -> Seq<(usize, usize)> {
    pairs_below(n, n)
}

/// The name of the question about a pair.
pub open spec fn pair_id(pair: (usize, usize)) -> Seq<char> {
    "pair_"@ + decimal(pair.0 as nat) + "_"@ + decimal(pair.1 as nat)
}

fn pair_name(pair: (usize, usize)) -> (r: String)
    ensures
        r@ == pair_id(pair),
{
    join2(&join3("pair_", &decimal_text(pair.0 as u64), "_"), &decimal_text(pair.1 as u64))
}

/// The reference to a pair of items.
pub open spec fn pair_ref(pair: (usize, usize)) -> Seq<char> {
    "`items["@ + decimal(pair.0 as nat) + "]` and `items["@ + decimal(pair.1 as nat) + "]`"@
}

/// The question about a pair.
pub open spec fn pair_question(criterion: Tree, pair: (usize, usize)) -> QuestionView {
    noul(
        scoped(
            criterion,
            pair_ref(pair),
            "Judge only the two scoped items; ignore every other item in `items`."@,
        ),
    )
}

/// The questions about the first `n` pairs from the place `start` on.
pub open spec fn pair_questions(
    criterion: Tree,
    pairs: Seq<(usize, usize)>,
    start: int,
    n: nat,
) -> Map<Seq<char>, QuestionView>
    decreases n,
{
    if n == 0 {
        Map::empty()
    } else {
        pair_questions(criterion, pairs, start, (n - 1) as nat).insert(
            pair_id(pairs[start + n - 1]),
            pair_question(criterion, pairs[start + n - 1]),
        )
    }
}

/// How many of `total` pairs the first `calls` calls are about.
pub open spec fn pairs_reached(total: int, calls: int) -> int {
    if calls * PAIRS_PER_CALL < total {
        calls * PAIRS_PER_CALL
    } else {
        total
    }
}

/// How many of `total` pairs the call after the first `calls` is about.
pub open spec fn batch_width(total: int, calls: int) -> nat {
    (pairs_reached(total, calls + 1) - pairs_reached(total, calls)) as nat
}

/// How the answer about the pair `i` of the call that begins at the pair `start` is read.
pub open spec fn pair_reading(pairs: Seq<(usize, usize)>, start: int) -> spec_fn(
    Tree,
    nat,
) -> Result<Real, Fault> {
    |body: Tree, i: nat| noul_in(body, pair_id(pairs[start + i]))
}

/// The probabilities in the responses to the first `k` calls, in the order of the pairs.
pub open spec fn pairs_read(pairs: Seq<(usize, usize)>, heard: Seq<Tree>, k: nat) -> Result<
    Seq<Real>,
    Fault,
>
    decreases k,
{
    if k == 0 {
        Ok(Seq::empty())
    } else {
        match pairs_read(pairs, heard, (k - 1) as nat) {
            Err(e) => Err(e),
            Ok(all) => match read_each(
                heard[k - 1],
                batch_width(pairs.len() as int, k - 1),
                pair_reading(pairs, pairs_reached(pairs.len() as int, k - 1)),
            ) {
                Err(e) => Err(e),
                Ok(more) => Ok(all + more),
            },
        }
    }
}

/// Later responses do not change what was read.
proof fn lemma_read_keeps(pairs: Seq<(usize, usize)>, heard: Seq<Tree>, body: Tree, k: nat)
    requires
        k <= heard.len(),
    ensures
        pairs_read(pairs, heard.push(body), k) == pairs_read(pairs, heard, k),
    decreases k,
{
    if k > 0 {
        lemma_read_keeps(pairs, heard, body, (k - 1) as nat);
        assert(heard.push(body)[k - 1] == heard[k - 1]);
    }
}

/// The pairs among the first `n` whose probability reaches the threshold, in their order.
pub open spec fn edges_of(
    pairs: Seq<(usize, usize)>,
    probabilities: Seq<Real>,
    threshold: Real,
    n: nat,
) -> Seq<(usize, usize, Real)>
    decreases n,
{
    if n == 0 {
        Seq::empty()
    } else {
        let before = edges_of(pairs, probabilities, threshold, (n - 1) as nat);
        if probabilities[n - 1].spec_ge(threshold) {
            before.push((pairs[n - 1].0, pairs[n - 1].1, probabilities[n - 1]))
        } else {
            before
        }
    }
}

/// How an edge is reported.
pub open spec fn edge_tree(e: (usize, usize, Real)) -> Tree {
    Tree::Array(
        seq![Tree::Integer(e.0 as int), Tree::Integer(e.1 as int), real_tree(e.2)],
    )
}

/// How edges are reported.
pub open spec fn edge_trees(edges: Seq<(usize, usize, Real)>) -> Seq<Tree> {
    edges.map_values(|e: (usize, usize, Real)| edge_tree(e))
}

/// How a cluster is reported.
pub open spec fn cluster_tree(group: Seq<usize>) -> Tree {
    Tree::Array(group.map_values(|x: usize| Tree::Integer(x as int)))
}

/// How clusters are reported.
pub open spec fn cluster_trees(groups: Seq<Seq<usize>>) -> Seq<Tree> {
    groups.map_values(|g: Seq<usize>| cluster_tree(g))
}

/// How the probabilities of pairs are reported: each with its pair, whatever it is.
pub open spec fn pair_trees(pairs: Seq<(usize, usize)>, probabilities: Seq<Real>) -> Seq<Tree> {
    Seq::new(
        probabilities.len(),
        |k: int| edge_tree((pairs[k].0, pairs[k].1, probabilities[k])),
    )
}

/// What is reported of `n` items.
pub open spec fn dedupe_report(n: nat, probabilities: Seq<Real>, threshold: Real) -> Tree {
    let edges = edges_of(all_pairs(n), probabilities, threshold, probabilities.len());
    Tree::Object(
        map![
            "threshold"@ => real_tree(threshold),
            "edge_count"@ => Tree::Integer(edges.len() as int),
            "edges"@ => Tree::Array(edge_trees(edges)),
            "clusters"@ => Tree::Array(cluster_trees(clusters(n, ends(edges)))),
            "probabilities"@ => Tree::Array(pair_trees(all_pairs(n), probabilities)),
        ],
    )
}

fn list_pairs(n: usize) -> (r: Vec<(usize, usize)>)
    ensures
        r@ == all_pairs(n as nat),
{
    let mut r: Vec<(usize, usize)> = Vec::new();
    let mut i: usize = 0;
    while i < n
        invariant
            i <= n,
            r@ == pairs_below(n as nat, i as nat),
        decreases n - i,
    {
        let ghost was = r@;
        let ghost row = pairs_with(n as nat, i as int);
        let mut j: usize = i + 1;
        assert(row.take(0) =~= Seq::empty());
        while j < n
            invariant
                i < j <= n,
                row == pairs_with(n as nat, i as int),
                r@ == was + row.take(j - i - 1),
            decreases n - j,
        {
            r.push((i, j));
            assert(row.take(j - i) =~= row.take(j - i - 1).push((i, j)));
            j = j + 1;
        }
        assert(row.take(j - i - 1) =~= row);
        i = i + 1;
    }
    r
}

/// A list on its way through the comparison of all pairs.
pub struct DedupeRun {
    pub items: Vec<serde_json::Value>,
    pub criterion: Json,
    pub threshold: Real,
    pub model: String,
    pub pairs: Vec<(usize, usize)>,
    /// How many calls have been answered.
    pub calls: usize,
    /// The probabilities of the pairs so far.
    pub probabilities: Vec<Real>,
    /// The responses so far.
    pub heard: Ghost<Seq<Tree>>,
}

/// Begins to compare items: refuses a list with nothing to compare, and one with too much,
/// before anything is asked.
pub fn dedupe_items(args: DedupeItemsArgs) -> (r: Result<DedupeRun, ToolError>)
    ensures
        match r {
            Ok(run) => {
                &&& dedupe_fault(args.items@.len()) is None
                &&& run.wf()
                &&& run.items == args.items
                &&& run.criterion@ == same_criterion(args.criterion)
                &&& run.threshold == spec_threshold(args.threshold, THREE_QUARTERS)
                &&& run.model@ == spec_model(args.model)
                &&& run.calls == 0
            },
            Err(e) => dedupe_fault(args.items@.len()) is Some && e@ == Fault::InvalidParams(
                dedupe_fault(args.items@.len())->0,
            ),
        },
{
    let n = args.items.len();
    if n < 2 {
        return Err(invalid_params_error("'items' must contain at least two items".to_string()));
    }
    if n > MAX_DEDUPE_ITEMS {
        return Err(
            invalid_params_error(
                join5(
                    "'items' has ",
                    &decimal_text(n as u64),
                    " entries; pairwise comparison supports at most ",
                    &decimal_text(MAX_DEDUPE_ITEMS as u64),
                    " (split the list or pre-cluster it first)",
                ),
            ),
        );
    }
    let criterion = match args.criterion {
        Some(v) => Json::Given(v),
        None => Json::text(
            "Do these two items refer to the same real-world entity (a duplicate, an alias, or the same thing under different wording)?",
        ),
    };
    Ok(
        DedupeRun {
            pairs: list_pairs(n),
            items: args.items,
            criterion,
            threshold: threshold(args.threshold, THREE_QUARTERS),
            model: model_or_default(args.model),
            calls: 0,
            probabilities: Vec::new(),
            heard: Ghost(Seq::empty()),
        },
    )
}

impl DedupeRun {
    pub open spec fn wf(&self) -> bool {
        &&& 2 <= self.items@.len() <= MAX_DEDUPE_ITEMS
        &&& self.pairs@ == all_pairs(self.items@.len())
        &&& self.heard@.len() == self.calls
        &&& self.calls == 0 || (self.calls - 1) * PAIRS_PER_CALL < self.pairs@.len()
        &&& self.probabilities@.len() == self.reached()
        &&& pairs_read(self.pairs@, self.heard@, self.calls as nat) == Ok::<Seq<Real>, Fault>(
            self.probabilities@,
        )
    }

    /// How many pairs the answered calls were about.
    pub open spec fn reached(&self) -> int {
        pairs_reached(self.pairs@.len() as int, self.calls as int)
    }

    /// How many pairs the next call is about.
    pub open spec fn width(&self) -> nat {
        batch_width(self.pairs@.len() as int, self.calls as int)
    }

    /// Whether a call is still to be made.
    pub open spec fn pending(&self) -> bool {
        self.reached() < self.pairs@.len()
    }

    /// Where the next call begins and ends.
    fn batch(&self) -> (r: (usize, usize))
        requires
            self.wf(),
        ensures
            r.0 == self.reached(),
            r.0 <= r.1 <= self.pairs@.len(),
            r.1 - r.0 == self.width(),
            self.pending() <==> r.0 < r.1,
    {
        let start = self.probabilities.len();
        let end = if self.pairs.len() - start > PAIRS_PER_CALL {
            start + PAIRS_PER_CALL
        } else {
            self.pairs.len()
        };
        (start, end)
    }

    /// The body of the next call: all items, and one question about each of its pairs.
    pub fn next_call(&self) -> (r: Option<Json>)
        requires
            self.wf(),
        ensures
            match r {
                Some(body) => self.pending() && body@ == call_tree(
                    items_tree(self.items@),
                    pair_questions(self.criterion@, self.pairs@, self.reached(), self.width()),
                    self.model@,
                ),
                None => !self.pending(),
            },
    {
        let (start, end) = self.batch();
        if start == end {
            return None;
        }
        let mut questions: Table<Question> = Table::new();
        let mut i: usize = start;
        while i < end
            invariant
                start <= i <= end <= self.pairs@.len(),
                questions@ == pair_questions(
                    self.criterion@,
                    self.pairs@,
                    start as int,
                    (i - start) as nat,
                ),
            decreases end - i,
        {
            let pair = self.pairs[i];
            let scope = join5(
                "`items[",
                &decimal_text(pair.0 as u64),
                "]` and `items[",
                &decimal_text(pair.1 as u64),
                "]`",
            );
            questions.insert(
                pair_name(pair),
                noul_qv(
                    scoped_instructions(
                        self.criterion.copy(),
                        scope,
                        "Judge only the two scoped items; ignore every other item in `items`.",
                    ),
                ),
            );
            i = i + 1;
        }
        assert(self.items@.subrange(0, self.items@.len() as int) =~= self.items@);
        Some(
            call_body(
                items_state(&self.items, 0, self.items.len()),
                &questions,
                &self.model,
            ),
        )
    }

    /// Takes in the response to the call that `next_call` gave. A response that leaves a
    /// pair unanswered is refused whole.
    pub fn accept(&mut self, body: &Json) -> (r: Result<(), ToolError>)
        requires
            old(self).wf(),
            old(self).pending(),
        ensures
            final(self).wf(),
            final(self).items == old(self).items,
            final(self).criterion == old(self).criterion,
            final(self).threshold == old(self).threshold,
            final(self).model == old(self).model,
            final(self).pairs == old(self).pairs,
            match r {
                Ok(_) => {
                    let read = read_each(
                        body@,
                        old(self).width(),
                        pair_reading(old(self).pairs@, old(self).reached()),
                    );
                    &&& read is Ok
                    &&& final(self).probabilities@ == old(self).probabilities@ + read->Ok_0
                    &&& final(self).calls == old(self).calls + 1
                    &&& final(self).heard@ == old(self).heard@.push(body@)
                },
                Err(e) => read_each(
                    body@,
                    old(self).width(),
                    pair_reading(old(self).pairs@, old(self).reached()),
                ) == Err::<Seq<Real>, Fault>(e@) && *final(self) == *old(self),
            },
    {
        let (start, end) = self.batch();
        let ghost reading = pair_reading(self.pairs@, start as int);
        let mut read: Vec<Real> = Vec::new();
        let mut i: usize = start;
        while i < end
            invariant
                start <= i <= end <= self.pairs@.len(),
                *self == *old(self),
                self.wf(),
                end - start == self.width(),
                start == self.reached(),
                reading == pair_reading(self.pairs@, start as int),
                read@.len() == i - start,
                read_each(body@, (i - start) as nat, reading) == Ok::<Seq<Real>, Fault>(read@),
            decreases end - i,
        {
            match answer_noul(body, &pair_name(self.pairs[i])) {
                Ok(p) => {
                    read.push(p);
                },
                Err(e) => {
                    proof {
                        lemma_read_stops(
                            body@,
                            (i + 1 - start) as nat,
                            self.width(),
                            reading,
                        );
                    }
                    return Err(e);
                },
            }
            i = i + 1;
        }
        proof {
            lemma_read_keeps(self.pairs@, self.heard@, body@, self.calls as nat);
            lemma_pair_count(self.items@.len(), self.items@.len());
        }
        self.probabilities.append(&mut read);
        self.calls = self.calls + 1;
        self.heard = Ghost(self.heard@.push(body@));
        Ok(())
    }

    /// The report on all pairs.
    pub fn report(&self) -> (r: Json)
        requires
            self.wf(),
            !self.pending(),
        ensures
            r@ == dedupe_report(self.items@.len(), self.probabilities@, self.threshold),
    {
        let ghost pairs = self.pairs@;
        let ghost n = self.items@.len();
        let mut edges: Vec<(usize, usize, Real)> = Vec::new();
        let mut listed = Json::array();
        let mut all = Json::array();
        let mut i: usize = 0;
        assert(edge_trees(edges@) =~= Seq::empty());
        assert(pair_trees(pairs, self.probabilities@.take(0)) =~= Seq::empty());
        while i < self.pairs.len()
            invariant
                i <= pairs.len(),
                pairs == self.pairs@,
                n == self.items@.len(),
                self.probabilities@.len() == pairs.len(),
                pairs == all_pairs(n),
                n <= MAX_DEDUPE_ITEMS,
                edges@ == edges_of(pairs, self.probabilities@, self.threshold, i as nat),
                within(ends(edges@), n as int),
                listed@ is Array,
                listed@->Array_0 == edge_trees(edges@),
                all@ is Array,
                all@->Array_0 == pair_trees(pairs, self.probabilities@.take(i as int)),
            decreases pairs.len() - i,
        {
            let (a, b) = self.pairs[i];
            let p = self.probabilities[i];
            all = all.followed_by(edge_json(a, b, p));
            assert(pair_trees(pairs, self.probabilities@.take(i + 1)) =~= pair_trees(
                pairs,
                self.probabilities@.take(i as int),
            ).push(edge_tree((a, b, p))));
            if p.ge(self.threshold) {
                let ghost was = edges@;
                edges.push((a, b, p));
                listed = listed.followed_by(edge_json(a, b, p));
                proof {
                    lemma_pair_range(n, n, i as int);
                    assert(ends(edges@) =~= ends(was).push((a, b)));
                    assert(edge_trees(edges@) =~= edge_trees(was).push(edge_tree((a, b, p))));
                }
            }
            i = i + 1;
        }
        assert(self.probabilities@.take(i as int) =~= self.probabilities@);
        let groups = clusters_from_edges(self.items.len(), &edges);
        Json::object().with("threshold", Json::number(self.threshold)).with(
            "edge_count",
            Json::count(edges.len()),
        ).with("edges", listed).with("clusters", groups_json(&groups)).with("probabilities", all)
    }
}

/// A pair with its probability.
fn edge_json(a: usize, b: usize, p: Real) -> (r: Json)
    ensures
        r@ == edge_tree((a, b, p)),
{
    let r = Json::array().followed_by(Json::count(a)).followed_by(Json::count(b)).followed_by(
        Json::number(p),
    );
    assert(r@->Array_0 =~= edge_tree((a, b, p))->Array_0);
    r
}

fn groups_json(groups: &Vec<Vec<usize>>) -> (r: Json)
    ensures
        r@ == Tree::Array(cluster_trees(lists(groups@))),
{
    let ghost all = cluster_trees(lists(groups@));
    let mut r = Json::array();
    let mut i: usize = 0;
    assert(all.take(0) =~= Seq::empty());
    while i < groups.len()
        invariant
            i <= groups@.len(),
            all == cluster_trees(lists(groups@)),
            r@ is Array,
            r@->Array_0 == all.take(i as int),
        decreases groups.len() - i,
    {
        let group = &groups[i];
        let ghost members = cluster_tree(group@)->Array_0;
        let mut list = Json::array();
        let mut k: usize = 0;
        assert(members.take(0) =~= Seq::empty());
        while k < group.len()
            invariant
                k <= group@.len(),
                members == cluster_tree(group@)->Array_0,
                list@ is Array,
                list@->Array_0 == members.take(k as int),
            decreases group.len() - k,
        {
            list = list.followed_by(Json::count(group[k]));
            assert(members.take(k + 1) =~= members.take(k as int).push(
                Tree::Integer(group@[k as int] as int),
            ));
            k = k + 1;
        }
        assert(members.take(k as int) =~= members);
        r = r.followed_by(list);
        assert(all.take(i + 1) =~= all.take(i as int).push(cluster_tree(group@)));
        i = i + 1;
    }
    assert(all.take(i as int) =~= all);
    r
}

/// The items of a pair lie below `n`, the first before the second.
proof fn lemma_pair_range(n: nat, upto: nat, k: int)
    requires
        n <= usize::MAX,
        upto <= n,
        0 <= k < pairs_below(n, upto).len(),
    ensures
        pairs_below(n, upto)[k].0 < pairs_below(n, upto)[k].1 < n,
        pairs_below(n, upto)[k].0 < upto,
    decreases upto,
{
    let fewer = pairs_below(n, (upto - 1) as nat);
    if k < fewer.len() {
        lemma_pair_range(n, (upto - 1) as nat, k);
    }
}

/// How many pairs there are: each of `upto` items with all that follow it.
proof fn lemma_pair_count(n: nat, upto: nat)
    requires
        upto <= n,
    ensures
        pairs_below(n, upto).len() <= upto * n,
        2 * pairs_below(n, upto).len() == upto * (2 * n - upto - 1),
    decreases upto,
{
    if upto > 0 {
        let m = (upto - 1) as nat;
        lemma_pair_count(n, m);
        assert(pairs_below(n, upto).len() == pairs_below(n, m).len() + (n - m - 1));
        assert(m * n + n == upto * n) by (nonlinear_arith)
            requires
                upto == m + 1,
        ;
        assert(m * (2 * n - m - 1) + 2 * (n - m - 1) == upto * (2 * n - upto - 1))
            by (nonlinear_arith)
            requires
                upto == m + 1,
        ;
    }
}

/// All pairs of items are compared, each once.
pub proof fn law_every_pair_once(n: nat)
    requires
        n <= usize::MAX,
    ensures
        forall|i: usize, j: usize| #[trigger]
            all_pairs(n).contains((i, j)) <==> i < j < n,
        all_pairs(n).no_duplicates(),
        2 * all_pairs(n).len() == n * (n - 1),
{
    lemma_pair_count(n, n);
    lemma_pairs_listed(n, n);
    assert forall|i: usize, j: usize| #[trigger] all_pairs(n).contains((i, j)) implies i < j < n by {
        let k = all_pairs(n).index_of((i, j));
        lemma_pair_range(n, n, k);
    }
}

proof fn lemma_pairs_listed(n: nat, upto: nat)
    requires
        n <= usize::MAX,
        upto <= n,
    ensures
        forall|i: usize, j: usize|
            i < upto && i < j < n ==> #[trigger] pairs_below(n, upto).contains((i, j)),
        pairs_below(n, upto).no_duplicates(),
    decreases upto,
{
    if upto > 0 {
        let m = (upto - 1) as nat;
        let fewer = pairs_below(n, m);
        let row = pairs_with(n, m as int);
        let all = pairs_below(n, upto);
        lemma_pairs_listed(n, m);
        assert forall|i: usize, j: usize| i < upto && i < j < n implies #[trigger] all.contains(
            (i, j),
        ) by {
            if i < m {
                assert(fewer.contains((i, j)));
                let k = fewer.index_of((i, j));
                assert(all[k] == (i, j));
            } else {
                assert(row[j - i - 1] == (i, j));
                assert(all[fewer.len() + (j - i - 1)] == (i, j));
            }
        }
        assert forall|a: int, b: int|
            0 <= a < all.len() && 0 <= b < all.len() && a != b implies all[a] != all[b] by {
            if a < fewer.len() {
                lemma_pair_range(n, m, a);
            }
            if b < fewer.len() {
                lemma_pair_range(n, m, b);
            }
        }
    }
}

/// Different pairs have different names.
proof fn lemma_pair_ids(a: (usize, usize), b: (usize, usize))
    requires
        pair_id(a) == pair_id(b),
    ensures
        a == b,
{
    reveal_strlit("pair_");
    reveal_strlit("_");
    let x = "_"@ + decimal(a.1 as nat);
    let y = "_"@ + decimal(b.1 as nat);
    assert(x[0] == '_' && y[0] == '_');
    assert(pair_id(a).skip(5) =~= decimal(a.0 as nat) + x);
    assert(pair_id(b).skip(5) =~= decimal(b.0 as nat) + y);
    lemma_numeral_ends(a.0 as nat, b.0 as nat, x, y);
    assert(x.skip(1) =~= decimal(a.1 as nat));
    assert(y.skip(1) =~= decimal(b.1 as nat));
    lemma_decimal_injective(a.1 as nat, b.1 as nat);
}

/// A call asks one question about each of its pairs and none about anything else.
pub proof fn law_one_question_for_each_pair(
    criterion: Tree,
    pairs: Seq<(usize, usize)>,
    start: int,
    n: nat,
)
    requires
        pairs.no_duplicates(),
        0 <= start,
        start + n <= pairs.len(),
    ensures
        forall|a: int|
            start <= a < start + n ==> pair_questions(criterion, pairs, start, n).contains_key(
                pair_id(#[trigger] pairs[a]),
            ) && pair_questions(criterion, pairs, start, n)[pair_id(pairs[a])] == pair_question(
                criterion,
                pairs[a],
            ),
        forall|id: Seq<char>| #[trigger]
            pair_questions(criterion, pairs, start, n).contains_key(id) ==> exists|a: int|
                start <= a < start + n && id == pair_id(#[trigger] pairs[a]),
        pair_questions(criterion, pairs, start, n).dom().finite(),
        pair_questions(criterion, pairs, start, n).len() == n,
    decreases n,
{
    if n > 0 {
        let m = (n - 1) as nat;
        let was = pair_questions(criterion, pairs, start, m);
        let now = pair_questions(criterion, pairs, start, n);
        let last = pairs[start + m];
        law_one_question_for_each_pair(criterion, pairs, start, m);
        assert(!was.contains_key(pair_id(last))) by {
            if was.contains_key(pair_id(last)) {
                let a = choose|a: int|
                    start <= a < start + m && pair_id(last) == pair_id(#[trigger] pairs[a]);
                lemma_pair_ids(last, pairs[a]);
            }
        }
        assert forall|a: int| start <= a < start + n implies now.contains_key(
            pair_id(#[trigger] pairs[a]),
        ) && now[pair_id(pairs[a])] == pair_question(criterion, pairs[a]) by {
            if a < start + m {
                if pair_id(pairs[a]) == pair_id(last) {
                    lemma_pair_ids(pairs[a], last);
                }
            }
        }
        assert forall|id: Seq<char>| #[trigger] now.contains_key(id) implies exists|a: int|
            start <= a < start + n && id == pair_id(#[trigger] pairs[a]) by {
            if id != pair_id(last) {
                assert(was.contains_key(id));
                let a = choose|a: int| start <= a < start + m && id == pair_id(#[trigger] pairs[a]);
                assert(start <= a < start + n && id == pair_id(pairs[a]));
            } else {
                assert(id == pair_id(pairs[start + m]));
            }
        }
    }
}

/// The edges are exactly the pairs whose probability reaches the threshold, each with its
/// probability, in the order of the pairs.
pub proof fn law_edges_reach_the_threshold(
    pairs: Seq<(usize, usize)>,
    probabilities: Seq<Real>,
    threshold: Real,
    n: nat,
)
    requires
        n <= pairs.len(),
        n <= probabilities.len(),
    ensures
        forall|i: usize, j: usize, p: Real| #[trigger]
            edges_of(pairs, probabilities, threshold, n).contains((i, j, p)) <==> exists|k: int|
                0 <= k < n && #[trigger] pairs[k] == (i, j) && probabilities[k] == p && p.spec_ge(
                    threshold,
                ),
        edges_of(pairs, probabilities, threshold, n).len() <= n,
    decreases n,
{
    if n > 0 {
        let m = (n - 1) as nat;
        let was = edges_of(pairs, probabilities, threshold, m);
        let now = edges_of(pairs, probabilities, threshold, n);
        law_edges_reach_the_threshold(pairs, probabilities, threshold, m);
        assert forall|i: usize, j: usize, p: Real| #[trigger] now.contains((i, j, p)) <==> exists|
            k: int,
        |
            0 <= k < n && #[trigger] pairs[k] == (i, j) && probabilities[k] == p && p.spec_ge(
                threshold,
            ) by {
            if now.contains((i, j, p)) {
                let a = now.index_of((i, j, p));
                if a < was.len() {
                    assert(was[a] == (i, j, p));
                    assert(was.contains((i, j, p)));
                    let k = choose|k: int|
                        0 <= k < m && #[trigger] pairs[k] == (i, j) && probabilities[k] == p
                            && p.spec_ge(threshold);
                    assert(0 <= k < n && pairs[k] == (i, j));
                } else {
                    assert(pairs[m as int] == (i, j));
                }
            }
            if exists|k: int|
                0 <= k < n && #[trigger] pairs[k] == (i, j) && probabilities[k] == p && p.spec_ge(
                    threshold,
                ) {
                let k = choose|k: int|
                    0 <= k < n && #[trigger] pairs[k] == (i, j) && probabilities[k] == p
                        && p.spec_ge(threshold);
                if k < m {
                    assert(was.contains((i, j, p)));
                    let a = was.index_of((i, j, p));
                    assert(now[a] == (i, j, p));
                } else {
                    assert(now[now.len() - 1] == (i, j, p));
                }
            }
        }
    }
}

/// The probability of every pair is reported, whether it reaches the threshold or not:
/// reports that are the same come from the same probabilities, whatever the thresholds were.
pub proof fn law_pair_probabilities_survive(
    n: nat,
    p: Seq<Real>,
    q: Seq<Real>,
    threshold_p: Real,
    threshold_q: Real,
)
    requires
        p.len() == q.len(),
        dedupe_report(n, p, threshold_p) == dedupe_report(n, q, threshold_q),
    ensures
        forall|k: int|
            0 <= k < p.len() ==> real_tree(#[trigger] p[k]) == real_tree(#[trigger] q[k]),
{
    reveal_strlit("threshold");
    reveal_strlit("edge_count");
    reveal_strlit("edges");
    reveal_strlit("clusters");
    reveal_strlit("probabilities");
    assert("probabilities"@.len() == 13);
    let x = dedupe_report(n, p, threshold_p)->Object_0["probabilities"@];
    let y = dedupe_report(n, q, threshold_q)->Object_0["probabilities"@];
    assert(x == Tree::Array(pair_trees(all_pairs(n), p)));
    assert(y == Tree::Array(pair_trees(all_pairs(n), q)));
    assert forall|k: int| 0 <= k < p.len() implies real_tree(#[trigger] p[k]) == real_tree(
        #[trigger] q[k],
    ) by {
        assert(x->Array_0[k]->Array_0[2] == real_tree(p[k]));
        assert(y->Array_0[k]->Array_0[2] == real_tree(q[k]));
    }
}

proof fn lemma_read_answers(
    body: Tree,
    pairs: Seq<(usize, usize)>,
    start: int,
    n: nat,
    judged: spec_fn((usize, usize)) -> Real,
)
    requires
        0 <= start,
        start + n <= pairs.len(),
        forall|a: int|
            start <= a < start + n ==> noul_in(body, pair_id(#[trigger] pairs[a])) == Ok::<
                Real,
                Fault,
            >(judged(pairs[a])),
    ensures
        read_each(body, n, pair_reading(pairs, start)) == Ok::<Seq<Real>, Fault>(
            Seq::new(n, |i: int| judged(pairs[start + i])),
        ),
    decreases n,
{
    if n > 0 {
        let m = (n - 1) as nat;
        lemma_read_answers(body, pairs, start, m, judged);
        assert(noul_in(body, pair_id(pairs[start + m])) == Ok::<Real, Fault>(
            judged(pairs[start + m]),
        ));
        assert(Seq::new(n, |i: int| judged(pairs[start + i])) =~= Seq::new(
            m,
            |i: int| judged(pairs[start + i]),
        ).push(judged(pairs[start + m])));
    } else {
        assert(Seq::new(0, |i: int| judged(pairs[start + i])) =~= Seq::<Real>::empty());
    }
}

/// The cutting into calls cannot be seen in what is read: where each call answers its
/// questions with what the pairs deserve, each pair gets what it deserves at its own place.
pub proof fn law_batches_are_invisible(
    pairs: Seq<(usize, usize)>,
    heard: Seq<Tree>,
    k: nat,
    judged: spec_fn((usize, usize)) -> Real,
)
    requires
        k <= heard.len(),
        forall|c: int, a: int|
            0 <= c < k && pairs_reached(pairs.len() as int, c) <= a < pairs_reached(
                pairs.len() as int,
                c + 1,
            ) ==> #[trigger] noul_in(heard[c], pair_id(pairs[a])) == Ok::<Real, Fault>(
                judged(pairs[a]),
            ),
    ensures
        pairs_read(pairs, heard, k) == Ok::<Seq<Real>, Fault>(
            Seq::new(
                pairs_reached(pairs.len() as int, k as int) as nat,
                |a: int| judged(pairs[a]),
            ),
        ),
    decreases k,
{
    let total = pairs.len() as int;
    if k > 0 {
        let c = k - 1;
        law_batches_are_invisible(pairs, heard, (k - 1) as nat, judged);
        let from = pairs_reached(total, c);
        let to = pairs_reached(total, k as int);
        assert(c * PAIRS_PER_CALL + PAIRS_PER_CALL == k * PAIRS_PER_CALL) by (nonlinear_arith)
            requires
                c == k - 1,
        ;
        assert(0 <= c * PAIRS_PER_CALL) by (nonlinear_arith)
            requires
                0 <= c,
        ;
        assert forall|a: int| from <= a < from + (to - from) implies noul_in(
            heard[c],
            pair_id(#[trigger] pairs[a]),
        ) == Ok::<Real, Fault>(judged(pairs[a])) by {
            assert(pairs_reached(total, c + 1) == to);
        }
        lemma_read_answers(heard[c], pairs, from, (to - from) as nat, judged);
        assert(Seq::new(to as nat, |a: int| judged(pairs[a])) =~= Seq::new(
            from as nat,
            |a: int| judged(pairs[a]),
        ) + Seq::new((to - from) as nat, |i: int| judged(pairs[from + i])));
    } else {
        assert(Seq::new(0, |a: int| judged(pairs[a])) =~= Seq::<Real>::empty());
    }
}

/// Two items are compared by the criterion that the caller gives, and where none is given by
/// whether they are the same thing.
pub proof fn law_criterion_of_comparison(asked: Option<serde_json::Value>)
    ensures
        asked matches Some(v) ==> same_criterion(asked) == Tree::Given(v),
        asked is None ==> same_criterion(asked) == Tree::Text(
            "Do these two items refer to the same real-world entity (a duplicate, an alias, or the same thing under different wording)?"@,
        ),
{
}

/// A list is refused exactly where it holds fewer than two items or more than 64.
pub proof fn law_comparisons_within_limits(n: nat)
    ensures
        dedupe_fault(n) is None <==> 2 <= n <= 64,
        n < 2 ==> dedupe_fault(n) == Some("'items' must contain at least two items"@),
        n > 64 ==> dedupe_fault(n) == Some(
            "'items' has "@ + decimal(n) + " entries; pairwise comparison supports at most "@
                + decimal(64) + " (split the list or pre-cluster it first)"@,
        ),
{
}

/// Calls take the pairs in turn, 150 at a time, until none is left.
pub proof fn law_pairs_are_taken_in_turn(total: int, calls: int)
    requires
        total >= 0,
        calls >= 0,
    ensures
        pairs_reached(total, 0) == 0,
        pairs_reached(total, calls + 1) == pairs_reached(total, calls) + batch_width(total, calls),
        batch_width(total, calls) <= 150,
        pairs_reached(total, calls + 1) < total ==> batch_width(total, calls) == 150,
        pairs_reached(total, calls) < total ==> batch_width(total, calls) > 0,
        pairs_reached(total, calls) <= total,
{
    assert((calls + 1) * PAIRS_PER_CALL == calls * PAIRS_PER_CALL + PAIRS_PER_CALL)
        by (nonlinear_arith);
    assert(calls * PAIRS_PER_CALL >= 0) by (nonlinear_arith)
        requires
            calls >= 0,
    ;
}

/// Each pair of a call is judged once, under the numbers of its two items.
pub proof fn law_pairs_are_judged(
    items: Seq<serde_json::Value>,
    criterion: Tree,
    pairs: Seq<(usize, usize)>,
    start: int,
    n: nat,
    model: Seq<char>,
    a: int,
)
    requires
        pairs.no_duplicates(),
        0 <= start <= a < start + n,
        start + n <= pairs.len(),
    ensures
        ({
            let call = call_tree(
                items_tree(items),
                pair_questions(criterion, pairs, start, n),
                model,
            );
            let asked = at(call, "questions"@);
            let (i, j) = pairs[a];
            let id = "pair_"@ + decimal(i as nat) + "_"@ + decimal(j as nat);
            let q = at(asked, id);
            let told = at(q, "instructions"@);
            &&& asked is Object && asked->Object_0.len() == n
            &&& has_field(asked, id)
            &&& fields_are(q, set!["type"@, "instructions"@])
            &&& holds(q, "type"@, Tree::Text("noul"@))
            &&& fields_are(told, set!["criterion"@, "scope"@, "focus"@])
            &&& holds(told, "criterion"@, criterion)
            &&& holds(
                told,
                "scope"@,
                Tree::Text(
                    "`items["@ + decimal(i as nat) + "]` and `items["@ + decimal(j as nat)
                        + "]`"@,
                ),
            )
            &&& holds(
                told,
                "focus"@,
                Tree::Text(
                    "Judge only the two scoped items; ignore every other item in `items`."@,
                ),
            )
        }),
{
    let questions = pair_questions(criterion, pairs, start, n);
    law_one_question_for_each_pair(criterion, pairs, start, n);
    law_calls_hold_what_they_ask(items_tree(items), questions, model);
    assert(questions.contains_key(pair_id(pairs[a])));
    let view = pair_question(criterion, pairs[a]);
    law_yes_and_no_are_sent(view->Noul_instructions, view->Noul_criteria);
    law_scopes_are_sent(
        criterion,
        pair_ref(pairs[a]),
        "Judge only the two scoped items; ignore every other item in `items`."@,
    );
}

/// The probability of a pair is read exactly where the response gives one under the numbers
/// of its two items.
pub proof fn law_pairs_are_read(
    pairs: Seq<(usize, usize)>,
    start: int,
    body: Tree,
    i: nat,
    probability: Real,
)
    ensures
        pair_reading(pairs, start)(body, i) == Ok::<Real, Fault>(probability) <==> {
            let pair = pairs[start + i];
            let id = "pair_"@ + decimal(pair.0 as nat) + "_"@ + decimal(pair.1 as nat);
            &&& answered(body, id)
            &&& has_field(answer_at(body, id), "noul"@)
            &&& spec_as_real(at(answer_at(body, id), "noul"@)) == Some(probability)
        },
{
    law_numbers_in_answers(body, pair_id(pairs[start + i]), probability);
}

/// The report lists, in their order, just those pairs whose probability reaches the
/// threshold, and says how many they are; it gives the threshold, and every pair with its
/// probability.
pub proof fn law_pairs_are_reported(n: nat, probabilities: Seq<Real>, threshold: Real)
    requires
        n <= usize::MAX,
        probabilities.len() == all_pairs(n).len(),
    ensures
        ({
            let report = dedupe_report(n, probabilities, threshold);
            let pairs = all_pairs(n);
            let edges = at(report, "edges"@)->Array_0;
            let all = at(report, "probabilities"@)->Array_0;
            &&& fields_are(
                report,
                set!["threshold"@, "edge_count"@, "edges"@, "clusters"@, "probabilities"@],
            )
            &&& holds(report, "threshold"@, real_tree(threshold))
            &&& at(report, "edges"@) is Array
            &&& holds(report, "edge_count"@, Tree::Integer(edges.len() as int))
            &&& edges.len() == probabilities.filter(|p: Real| p.spec_ge(threshold)).len()
            &&& forall|e: int|
                0 <= e < edges.len() ==> exists|k: int|
                    0 <= k < pairs.len() && #[trigger] edges[e] == pair_entry(
                        #[trigger] pairs[k],
                        probabilities[k],
                    ) && probabilities[k].spec_ge(threshold)
            &&& forall|k: int|
                0 <= k < pairs.len() && (#[trigger] probabilities[k]).spec_ge(threshold)
                    ==> edges.contains(pair_entry(pairs[k], probabilities[k]))
            &&& at(report, "probabilities"@) is Array
            &&& all.len() == pairs.len()
            &&& forall|k: int|
                0 <= k < pairs.len() ==> #[trigger] all[k] == pair_entry(pairs[k], probabilities[k])
        }),
{
    reveal_strlit("threshold");
    reveal_strlit("edge_count");
    reveal_strlit("edges");
    reveal_strlit("clusters");
    reveal_strlit("probabilities");
    assert("threshold"@.len() == 9);
    assert("edge_count"@.len() == 10);
    assert("edges"@.len() == 5);
    assert("clusters"@.len() == 8);
    assert("probabilities"@.len() == 13);
    let report = dedupe_report(n, probabilities, threshold);
    let pairs = all_pairs(n);
    assert(report->Object_0.dom()
        =~= set!["threshold"@, "edge_count"@, "edges"@, "clusters"@, "probabilities"@]);
    let list = edges_of(pairs, probabilities, threshold, probabilities.len());
    let edges = at(report, "edges"@)->Array_0;
    lemma_edge_count(pairs, probabilities, threshold, probabilities.len());
    assert(probabilities.take(probabilities.len() as int) =~= probabilities);
    law_edges_reach_the_threshold(pairs, probabilities, threshold, probabilities.len());
    assert forall|e: int| 0 <= e < edges.len() implies exists|k: int|
        0 <= k < pairs.len() && #[trigger] edges[e] == pair_entry(
            #[trigger] pairs[k],
            probabilities[k],
        ) && probabilities[k].spec_ge(threshold) by {
        let (i, j, p) = list[e];
        assert(list.contains((i, j, p)));
        let k = choose|k: int|
            0 <= k < probabilities.len() && #[trigger] pairs[k] == (i, j) && probabilities[k] == p
                && p.spec_ge(threshold);
        assert(edges[e] == edge_tree(list[e]));
        assert(edges[e]->Array_0 =~= pair_entry(pairs[k], probabilities[k])->Array_0);
    }
    assert forall|k: int|
        0 <= k < pairs.len() && (#[trigger] probabilities[k]).spec_ge(
            threshold,
        ) implies edges.contains(pair_entry(pairs[k], probabilities[k])) by {
        let (i, j) = pairs[k];
        assert(list.contains((i, j, probabilities[k])));
        let e = choose|e: int| 0 <= e < list.len() && list[e] == (i, j, probabilities[k]);
        assert(edges[e] == edge_tree(list[e]));
        assert(edges[e]->Array_0 =~= pair_entry(pairs[k], probabilities[k])->Array_0);
    }
    let all = at(report, "probabilities"@)->Array_0;
    assert forall|k: int| 0 <= k < pairs.len() implies #[trigger] all[k] == pair_entry(
        pairs[k],
        probabilities[k],
    ) by {
        assert(all[k] == edge_tree((pairs[k].0, pairs[k].1, probabilities[k])));
        assert(all[k]->Array_0 =~= pair_entry(pairs[k], probabilities[k])->Array_0);
    }
}

/// A pair with its probability: the numbers of the two items, the smaller one first, and the
/// probability.
pub open spec fn pair_entry(pair: (usize, usize), probability: Real) -> Tree {
    Tree::Array(
        seq![
            Tree::Integer(pair.0 as int),
            Tree::Integer(pair.1 as int),
            real_tree(probability),
        ],
    )
}

proof fn lemma_edge_count(
    pairs: Seq<(usize, usize)>,
    probabilities: Seq<Real>,
    threshold: Real,
    n: nat,
)
    requires
        n <= probabilities.len(),
    ensures
        edges_of(pairs, probabilities, threshold, n).len() == probabilities.take(n as int).filter(
            |p: Real| p.spec_ge(threshold),
        ).len(),
    decreases n,
{
    reveal(Seq::filter);
    if n > 0 {
        lemma_edge_count(pairs, probabilities, threshold, (n - 1) as nat);
        assert(probabilities.take(n as int).drop_last() =~= probabilities.take(n - 1));
    }
}

/// Two items stand in one reported cluster exactly where pairs that reach the threshold lead
/// from one to the other.
pub proof fn law_clusters_are_reported(
    n: nat,
    probabilities: Seq<Real>,
    threshold: Real,
    x: usize,
    y: usize,
)
    requires
        n <= usize::MAX,
        probabilities.len() == all_pairs(n).len(),
        x < n,
        y < n,
        x != y,
    ensures
        ({
            let report = dedupe_report(n, probabilities, threshold);
            let reported = at(report, "clusters"@)->Array_0;
            let pairs = all_pairs(n);
            let edges = ends(edges_of(pairs, probabilities, threshold, pairs.len()));
            &&& at(report, "clusters"@) is Array
            &&& (exists|c: int|
                0 <= c < reported.len() && (#[trigger] reported[c])->Array_0.contains(
                    Tree::Integer(x as int),
                ) && reported[c]->Array_0.contains(Tree::Integer(y as int))) <==> connected(
                edges,
                x as int,
                y as int,
            )
        }),
{
    reveal_strlit("threshold");
    reveal_strlit("edge_count");
    reveal_strlit("edges");
    reveal_strlit("clusters");
    reveal_strlit("probabilities");
    assert("threshold"@.len() == 9);
    assert("edge_count"@.len() == 10);
    assert("edges"@.len() == 5);
    assert("clusters"@.len() == 8);
    assert("probabilities"@.len() == 13);
    let report = dedupe_report(n, probabilities, threshold);
    let pairs = all_pairs(n);
    let list = edges_of(pairs, probabilities, threshold, pairs.len());
    let edges = ends(list);
    law_edges_reach_the_threshold(pairs, probabilities, threshold, pairs.len());
    law_every_pair_once(n);
    assert forall|k: int| 0 <= k < edges.len() implies (#[trigger] edges[k]).0 < n && edges[k].1
        < n by {
        let (i, j, p) = list[k];
        assert(list.contains((i, j, p)));
        let m = choose|m: int|
            0 <= m < pairs.len() && #[trigger] pairs[m] == (i, j) && probabilities[m] == p
                && p.spec_ge(threshold);
        assert(pairs.contains((i, j)));
    }
    law_clusters_are_components(n, edges, x, y);
    let groups = clusters(n, edges);
    let reported = at(report, "clusters"@)->Array_0;
    assert(reported.len() == groups.len());
    assert forall|c: int, z: usize|
        0 <= c < groups.len() implies reported[c]->Array_0.contains(Tree::Integer(z as int))
        == #[trigger] groups[c].contains(z) by {
        let shown = reported[c]->Array_0;
        assert(shown =~= groups[c].map_values(|x: usize| Tree::Integer(x as int)));
        if groups[c].contains(z) {
            let k = choose|k: int| 0 <= k < groups[c].len() && groups[c][k] == z;
            assert(shown[k] == Tree::Integer(z as int));
        }
        if shown.contains(Tree::Integer(z as int)) {
            let k = choose|k: int| 0 <= k < shown.len() && shown[k] == Tree::Integer(z as int);
            assert(groups[c][k] == z);
        }
    }
    if exists|c: int|
        0 <= c < reported.len() && (#[trigger] reported[c])->Array_0.contains(
            Tree::Integer(x as int),
        ) && reported[c]->Array_0.contains(Tree::Integer(y as int)) {
        let c = choose|c: int|
            0 <= c < reported.len() && (#[trigger] reported[c])->Array_0.contains(
                Tree::Integer(x as int),
            ) && reported[c]->Array_0.contains(Tree::Integer(y as int));
        assert(groups[c].contains(x));
        assert(groups[c].contains(y));
    }
    if connected(edges, x as int, y as int) {
        let c = choose|c: int|
            0 <= c < groups.len() && (#[trigger] groups[c]).contains(x) && groups[c].contains(y);
        assert(reported[c]->Array_0.contains(Tree::Integer(x as int)));
        assert(reported[c]->Array_0.contains(Tree::Integer(y as int)));
    }
}

/// Whether a pair comes before another: by its first number, and where that is the same by
/// its second.
pub open spec fn pair_before(a: (usize, usize), b: (usize, usize)) -> bool {
    a.0 < b.0 || (a.0 == b.0 && a.1 < b.1)
}

/// Pairs stand in the order of their numbers, and so do the pairs that reach the threshold.
pub proof fn law_pairs_stand_in_order(n: nat, probabilities: Seq<Real>, threshold: Real)
    requires
        n <= usize::MAX,
        probabilities.len() == all_pairs(n).len(),
    ensures
        forall|a: int, b: int|
            0 <= a < b < all_pairs(n).len() ==> pair_before(
                #[trigger] all_pairs(n)[a],
                #[trigger] all_pairs(n)[b],
            ),
        ({
            let edges = edges_of(all_pairs(n), probabilities, threshold, probabilities.len());
            forall|e: int, f: int|
                0 <= e < f < edges.len() ==> pair_before(
                    ((#[trigger] edges[e]).0, edges[e].1),
                    ((#[trigger] edges[f]).0, edges[f].1),
                )
        }),
{
    lemma_pairs_ordered(n, n);
    lemma_edges_ordered(all_pairs(n), probabilities, threshold, probabilities.len());
}

proof fn lemma_pairs_ordered(n: nat, upto: nat)
    requires
        n <= usize::MAX,
        upto <= n,
    ensures
        forall|a: int, b: int|
            0 <= a < b < pairs_below(n, upto).len() ==> pair_before(
                #[trigger] pairs_below(n, upto)[a],
                #[trigger] pairs_below(n, upto)[b],
            ),
    decreases upto,
{
    if upto > 0 {
        let m = (upto - 1) as nat;
        lemma_pairs_ordered(n, m);
        let rest = pairs_below(n, m);
        let more = pairs_with(n, m as int);
        let all = pairs_below(n, upto);
        assert(all == rest + more);
        assert forall|a: int, b: int| 0 <= a < b < all.len() implies pair_before(
            #[trigger] all[a],
            #[trigger] all[b],
        ) by {
            if b < rest.len() {
                assert(pair_before(rest[a], rest[b]));
            } else if a < rest.len() {
                lemma_pair_range(n, m, a);
                assert(all[a] == rest[a]);
                assert(all[b] == more[b - rest.len()]);
            } else {
                assert(all[a] == more[a - rest.len()]);
                assert(all[b] == more[b - rest.len()]);
            }
        }
    }
}

proof fn lemma_edges_ordered(
    pairs: Seq<(usize, usize)>,
    probabilities: Seq<Real>,
    threshold: Real,
    n: nat,
)
    requires
        n <= pairs.len(),
        forall|a: int, b: int|
            0 <= a < b < pairs.len() ==> pair_before(#[trigger] pairs[a], #[trigger] pairs[b]),
    ensures
        ({
            let edges = edges_of(pairs, probabilities, threshold, n);
            &&& forall|e: int|
                0 <= e < edges.len() ==> exists|k: int|
                    0 <= k < n && #[trigger] pairs[k] == ((#[trigger] edges[e]).0, edges[e].1)
            &&& forall|e: int, f: int|
                0 <= e < f < edges.len() ==> pair_before(
                    ((#[trigger] edges[e]).0, edges[e].1),
                    ((#[trigger] edges[f]).0, edges[f].1),
                )
        }),
    decreases n,
{
    if n > 0 {
        let m = (n - 1) as nat;
        lemma_edges_ordered(pairs, probabilities, threshold, m);
        let before = edges_of(pairs, probabilities, threshold, m);
        let edges = edges_of(pairs, probabilities, threshold, n);
        assert forall|e: int| 0 <= e < edges.len() implies exists|k: int|
            0 <= k < n && #[trigger] pairs[k] == ((#[trigger] edges[e]).0, edges[e].1) by {
            if e < before.len() {
                assert(edges[e] == before[e]);
            } else {
                assert(pairs[m as int] == (edges[e].0, edges[e].1));
            }
        }
        assert forall|e: int, f: int| 0 <= e < f < edges.len() implies pair_before(
            ((#[trigger] edges[e]).0, edges[e].1),
            ((#[trigger] edges[f]).0, edges[f].1),
        ) by {
            assert(edges[e] == before[e]);
            if f < before.len() {
                assert(edges[f] == before[f]);
            } else {
                let k = choose|k: int|
                    0 <= k < m && #[trigger] pairs[k] == (before[e].0, before[e].1);
                assert(pair_before(pairs[k], pairs[m as int]));
            }
        }
    }
}

/// The probabilities of pairs are read call after call: all of them where every call can be
/// read, each call's after those of the calls before, and otherwise the fault is that of the
/// first call that cannot be read.
pub proof fn law_batches_are_read_in_turn(
    pairs: Seq<(usize, usize)>,
    heard: Seq<Tree>,
    k: nat,
)
    ensures
        pairs_read(pairs, heard, 0) == Ok::<Seq<Real>, Fault>(Seq::empty()),
        pairs_read(pairs, heard, k) matches Err(e) ==> exists|c: int|
            0 <= c < k && #[trigger] batch_read(pairs, heard, c) == Err::<Seq<Real>, Fault>(e)
                && pairs_read(pairs, heard, c as nat) is Ok,
        k > 0 && pairs_read(pairs, heard, k) is Ok ==> {
            let before = pairs_read(pairs, heard, (k - 1) as nat);
            let last = batch_read(pairs, heard, k - 1);
            &&& before is Ok
            &&& last is Ok
            &&& pairs_read(pairs, heard, k)->Ok_0 == before->Ok_0 + last->Ok_0
        },
        k > 0 && pairs_read(pairs, heard, (k - 1) as nat) is Ok && batch_read(
            pairs,
            heard,
            k - 1,
        ) is Ok ==> pairs_read(pairs, heard, k) is Ok,
    decreases k,
{
    if k > 0 {
        law_batches_are_read_in_turn(pairs, heard, (k - 1) as nat);
        let before = pairs_read(pairs, heard, (k - 1) as nat);
        let last = batch_read(pairs, heard, k - 1);
        if before is Err {
            let e = before->Err_0;
            let c = choose|c: int|
                0 <= c < k - 1 && #[trigger] batch_read(pairs, heard, c) == Err::<Seq<Real>, Fault>(
                    e,
                ) && pairs_read(pairs, heard, c as nat) is Ok;
            assert(batch_read(pairs, heard, c) == Err::<Seq<Real>, Fault>(e));
        }
    }
}

/// What the response to the call `c` says of the pairs that the call was about.
pub open spec fn batch_read(pairs: Seq<(usize, usize)>, heard: Seq<Tree>, c: int) -> Result<
    Seq<Real>,
    Fault,
> {
    read_each(
        heard[c],
        batch_width(pairs.len() as int, c),
        pair_reading(pairs, pairs_reached(pairs.len() as int, c)),
    )
}

/// A comparison begins with what the caller gives: the items, the criterion or the question
/// whether two are the same, the model or `jev-latest`, and the threshold or three quarters.
pub proof fn law_comparisons_begin_as_asked(
    args: DedupeItemsArgs,
    r: Result<DedupeRun, ToolError>,
)
    requires
        call_ensures(dedupe_items, (args,), r),
    ensures
        r is Ok <==> 2 <= args.items@.len() <= 64,
        r matches Ok(run) ==> {
            &&& run.items == args.items
            &&& run.calls == 0
            &&& run.criterion@ == same_criterion(args.criterion)
            &&& threshold_follows(args.threshold, 0x3fe8_0000_0000_0000, run.threshold)
            &&& model_follows(args.model, run.model@)
        },
        r matches Err(e) ==> e@ is InvalidParams,
{
    law_comparisons_within_limits(args.items@.len());
    lemma_threshold_follows(args.threshold, THREE_QUARTERS);
}

/// The next call of a comparison holds all items and asks about the pairs that follow those
/// already judged; there is none once all are judged.
pub proof fn law_comparisons_ask_in_turn(run: DedupeRun, r: Option<Json>, a: int)
    requires
        run.wf(),
        call_ensures(DedupeRun::next_call, (&run,), r),
    ensures
        r is Some <==> run.reached() < run.pairs@.len(),
        r matches Some(body) ==> {
            let asked = at(body@, "questions"@);
            let (i, j) = run.pairs@[a];
            let id = "pair_"@ + decimal(i as nat) + "_"@ + decimal(j as nat);
            let told = at(at(asked, id), "instructions"@);
            &&& holds(body@, "model"@, Tree::Text(run.model@))
            &&& holds(body@, "state"@, items_tree(run.items@))
            &&& asked is Object
            &&& run.reached() <= a < run.reached() + run.width() ==> {
                &&& asked->Object_0.len() == run.width()
                &&& has_field(asked, id)
                &&& holds(at(asked, id), "type"@, Tree::Text("noul"@))
                &&& holds(told, "criterion"@, run.criterion@)
                &&& holds(
                    told,
                    "scope"@,
                    Tree::Text(
                        "`items["@ + decimal(i as nat) + "]` and `items["@ + decimal(j as nat)
                            + "]`"@,
                    ),
                )
            }
        },
{
    if r is Some {
        law_calls_hold_what_they_ask(
            items_tree(run.items@),
            pair_questions(run.criterion@, run.pairs@, run.reached(), run.width()),
            run.model@,
        );
        law_every_pair_once(run.items@.len());
        law_pairs_are_taken_in_turn(run.pairs@.len() as int, run.calls as int);
        law_pairs_are_taken_in_turn(run.pairs@.len() as int, run.calls + 1);
        assert(run.calls * PAIRS_PER_CALL >= 0) by (nonlinear_arith);
        if run.reached() <= a < run.reached() + run.width() {
            law_pairs_are_judged(
                run.items@,
                run.criterion@,
                run.pairs@,
                run.reached(),
                run.width(),
                run.model@,
                a,
            );
        }
    }
}

/// The report of a comparison is on its own pairs: each with its probability, those that
/// reach the threshold as edges, and in one cluster what edges lead to.
pub proof fn law_comparisons_report_their_pairs(run: DedupeRun, r: Json, x: usize, y: usize)
    requires
        run.wf(),
        !run.pending(),
        call_ensures(DedupeRun::report, (&run,), r),
        x < run.items@.len(),
        y < run.items@.len(),
        x != y,
    ensures
        ({
            let edges = at(r@, "edges"@)->Array_0;
            let all = at(r@, "probabilities"@)->Array_0;
            let reported = at(r@, "clusters"@)->Array_0;
            let p = run.probabilities@;
            &&& holds(r@, "threshold"@, real_tree(run.threshold))
            &&& holds(r@, "edge_count"@, Tree::Integer(edges.len() as int))
            &&& edges.len() == p.filter(|q: Real| q.spec_ge(run.threshold)).len()
            &&& forall|k: int|
                0 <= k < run.pairs@.len() && (#[trigger] p[k]).spec_ge(run.threshold)
                    ==> edges.contains(pair_entry(run.pairs@[k], p[k]))
            &&& all.len() == run.pairs@.len()
            &&& forall|k: int|
                0 <= k < run.pairs@.len() ==> #[trigger] all[k] == pair_entry(run.pairs@[k], p[k])
            &&& (exists|c: int|
                0 <= c < reported.len() && (#[trigger] reported[c])->Array_0.contains(
                    Tree::Integer(x as int),
                ) && reported[c]->Array_0.contains(Tree::Integer(y as int))) <==> connected(
                ends(edges_of(run.pairs@, p, run.threshold, run.pairs@.len())),
                x as int,
                y as int,
            )
        }),
{
    let n = run.items@.len();
    law_pairs_are_taken_in_turn(run.pairs@.len() as int, run.calls as int);
    law_pairs_are_reported(n, run.probabilities@, run.threshold);
    law_clusters_are_reported(n, run.probabilities@, run.threshold, x, y);
    assert((|q: Real| q.spec_ge(run.threshold)) =~= (|p: Real| p.spec_ge(run.threshold)));
}

/// A response is taken in exactly where it gives a probability for every pair that was asked
/// about, and then each at its own place, after those that were known; otherwise nothing
/// changes.
pub proof fn law_comparisons_take_in_answers(
    run: &mut DedupeRun,
    body: Json,
    r: Result<(), ToolError>,
)
    requires
        old(run).wf(),
        old(run).pending(),
        call_ensures(DedupeRun::accept, (run, &body), r),
    ensures
        ({
            let pairs = old(run).pairs@;
            let from = old(run).reached();
            let to = from + old(run).width();
            &&& r is Ok <==> (forall|a: int|
                from <= a < to ==> noul_in(body@, pair_id(#[trigger] pairs[a])) is Ok)
            &&& r is Ok ==> {
                &&& final(run).calls == old(run).calls + 1
                &&& final(run).probabilities@.len() == to
                &&& forall|a: int|
                    0 <= a < from ==> #[trigger] final(run).probabilities@[a]
                        == old(run).probabilities@[a]
                &&& forall|a: int|
                    from <= a < to ==> noul_in(body@, pair_id(#[trigger] pairs[a])) == Ok::<
                        Real,
                        Fault,
                    >(final(run).probabilities@[a])
            }
        }),
        final(run).items == old(run).items,
        final(run).criterion == old(run).criterion,
        final(run).threshold == old(run).threshold,
        final(run).model == old(run).model,
        final(run).pairs == old(run).pairs,
        r is Err ==> *final(run) == *old(run),
{
    let pairs = old(run).pairs@;
    let from = old(run).reached();
    let width = old(run).width();
    let reading = pair_reading(pairs, from);
    law_answers_are_read_in_turn(body@, width, reading);
    assert forall|i: nat| i < width implies #[trigger] reading(body@, i) == noul_in(
        body@,
        pair_id(pairs[from + i]),
    ) by {}
    assert forall|a: int| from <= a < from + width implies noul_in(
        body@,
        pair_id(#[trigger] pairs[a]),
    ) == reading(body@, (a - from) as nat) by {
        assert(reading(body@, (a - from) as nat) == noul_in(body@, pair_id(pairs[from + (a - from)])));
    }
    if r is Ok {
        let more = read_each(body@, width, reading)->Ok_0;
        assert(final(run).probabilities@ == old(run).probabilities@ + more);
        assert forall|a: int| from <= a < from + width implies noul_in(
            body@,
            pair_id(#[trigger] pairs[a]),
        ) == Ok::<Real, Fault>(final(run).probabilities@[a]) by {
            assert(reading(body@, (a - from) as nat) == Ok::<Real, Fault>(more[a - from]));
        }
    } else {
        assert(read_each(body@, width, reading) is Err);
    }
}

/// The name of a pair's question is made of the numbers of its two items.
pub proof fn law_pairs_are_named(pair: (usize, usize))
    ensures
        pair_id(pair) == "pair_"@ + decimal(pair.0 as nat) + "_"@ + decimal(pair.1 as nat),
{
}

} // verus!
