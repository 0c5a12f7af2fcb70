//! Merging the responses to the chunks of one batch.

use vstd::prelude::*;

use crate::answer::{Answer, Response, Usage};
#[allow(unused_imports)]
use crate::answer::{AnswerView, ResponseView};
use crate::error::Error;
#[allow(unused_imports)]
use crate::error::ErrorView;
#[allow(unused_imports)]
use crate::order::{key_before, key_order_irreflexive, key_order_transitive};
use crate::sorted::SortedMap;
#[allow(unused_imports)]
use crate::sorted::{as_map, ascending, has_key, lemma_value_at};

verus! {

/// How many chunks of one batch may be in flight at once.
pub const WAVE: usize = 2;

/// What became of one chunk.
pub type Outcome = Result<ResponseView, ErrorView>;

/// What the outcome of a request holds.
pub open spec fn outcome(r: Result<Response, Error>) -> Outcome {
    match r {
        Ok(response) => Ok(response@),
        Err(e) => Err(e@),
    }
}

/// Whether `k` comes first among the keys that both maps have.
pub open spec fn is_first_shared(
    a: Map<Seq<char>, AnswerView>,
    b: Map<Seq<char>, AnswerView>,
    k: Seq<char>,
) -> bool {
    &&& a.dom().contains(k) && b.dom().contains(k)
    &&& forall|other: Seq<char>|
        a.dom().contains(other) && b.dom().contains(other) ==> other == k || key_before(k, other)
}

/// The first of the keys that both maps have.
pub open spec fn first_shared(
    a: Map<Seq<char>, AnswerView>,
    b: Map<Seq<char>, AnswerView>,
) -> Seq<char> {
    choose|k: Seq<char>| is_first_shared(a, b, k)
}

/// `merged` with the response to one more chunk: the first model that was named
/// stays, the tokens add up, and the answers join, but no key may be answered
/// twice.
pub open spec fn merged_with(merged: ResponseView, response: ResponseView) -> Outcome {
    if merged.answers.dom().disjoint(response.answers.dom()) {
        Ok(
            ResponseView {
                model: if merged.model.len() == 0 {
                    response.model
                } else {
                    merged.model
                },
                answers: merged.answers.union_prefer_right(response.answers),
                usage: merged.usage.plus(response.usage),
            },
        )
    } else {
        Err(
            ErrorView::Decode(
                "duplicate answer key across question chunks: "@ + first_shared(
                    merged.answers,
                    response.answers,
                ),
            ),
        )
    }
}

/// `merged` with the outcomes of further chunks, in order; the first failure
/// stands for all.
pub open spec fn merged_all(merged: ResponseView, outcomes: Seq<Outcome>) -> Outcome
    decreases outcomes.len(),
{
    if outcomes.len() == 0 {
        Ok(merged)
    } else {
        match outcomes[0] {
            Err(e) => Err(e),
            Ok(response) => match merged_with(merged, response) {
                Err(e) => Err(e),
                Ok(m) => merged_all(m, outcomes.drop_first()),
            },
        }
    }
}

proof fn lemma_first_shared(
    a: Map<Seq<char>, AnswerView>,
    b: Map<Seq<char>, AnswerView>,
    k: Seq<char>,
)
    requires
        is_first_shared(a, b, k),
    ensures
        first_shared(a, b) == k,
{
    let c = first_shared(a, b);
    assert(is_first_shared(a, b, c));
    if c != k {
        key_order_transitive(c, k, c);
        key_order_irreflexive(c);
    }
}

/// Joins the response to one more chunk to `merged`.
pub fn merge_response(merged: Response, response: Response) -> (r: Result<Response, Error>)
    requires
        merged.usage.fits(response.usage),
    ensures
        outcome(r) == merged_with(merged@, response@),
{
    let ghost a = merged@.answers;
    let ghost b = response@.answers;
    let ghost s = response.answers@;
    proof {
        use_type_invariant(&response.answers);
    }
    let mut i: usize = 0;
    while i < response.answers.len()
        invariant
            s == response.answers@,
            ascending(s),
            i <= s.len(),
            a == as_map(merged.answers@),
            b == as_map(s),
            merged@.answers == a,
            response@.answers == b,
            forall|j: int| 0 <= j < i ==> !a.dom().contains((#[trigger] s[j]).0),
        decreases s.len() - i,
    {
        let key = response.answers.key(i);
        if merged.answers.get(key.as_str()).is_some() {
            proof {
                lemma_value_at(s, i as int);
                assert forall|other: Seq<char>|
                    a.dom().contains(other) && b.dom().contains(other) implies other == key@
                    || key_before(key@, other) by {
                    let j = choose|j: int| 0 <= j < s.len() && #[trigger] s[j].0 == other;
                    if j > i {
                        assert(key_before(s[i as int].0, s[j].0));
                    }
                }
                assert(is_first_shared(a, b, key@));
                lemma_first_shared(a, b, key@);
                assert(!a.dom().disjoint(b.dom()));
            }
            let mut message = "duplicate answer key across question chunks: ".to_owned();
            message.append(key.as_str());
            return Err(Error::Decode(message));
        }
        i = i + 1;
    }
    assert forall|k: Seq<char>| b.dom().contains(k) implies !a.dom().contains(k) by {
        let j = choose|j: int| 0 <= j < s.len() && #[trigger] s[j].0 == k;
    }
    assert(a.dom().disjoint(b.dom()));
    let model = if merged.model.as_str().is_empty() {
        response.model
    } else {
        merged.model
    };
    let usage = Usage {
        input_tokens: merged.usage.input_tokens + response.usage.input_tokens,
        output_tokens: merged.usage.output_tokens + response.usage.output_tokens,
    };
    let answers = join(merged.answers, response.answers);
    Ok(Response { model, answers, usage })
}

/// Joins two maps; where both have a key, the value of `more` stays.
fn join(all: SortedMap<Answer>, more: SortedMap<Answer>) -> (r: SortedMap<Answer>)
    ensures
        as_map(r@) == as_map(all@).union_prefer_right(as_map(more@)),
{
    let ghost a = as_map(all@);
    let ghost s = more@;
    proof {
        use_type_invariant(&more);
    }
    let mut all = all;
    let mut rest: Vec<(String, Answer)> = more.into_entries();
    let ghost shown = |e: (String, Answer)| (e.0@, e.1@);
    assert(s.skip(s.len() as int) =~= Seq::empty());
    assert(as_map(all@) =~= a.union_prefer_right(as_map(s.skip(s.len() as int))));
    while rest.len() > 0
        invariant
            ascending(s),
            rest@.len() <= s.len(),
            rest@.map_values(shown) == s.take(rest@.len() as int),
            shown == (|e: (String, Answer)| (e.0@, e.1@)),
            as_map(all@) == a.union_prefer_right(as_map(s.skip(rest@.len() as int))),
        decreases rest.len(),
    {
        let ghost n = rest@.len() as int;
        let ghost held = rest@;
        match rest.pop() {
            None => {},
            Some((key, answer)) => {
                let ghost k = key@;
                let ghost v = answer@;
                proof {
                    assert(held.map_values(shown)[n - 1] == s[n - 1]);
                    assert(s[n - 1] == (k, v));
                    assert(rest@.map_values(shown) =~= s.take(n - 1));
                }
                all.insert(key, answer);
                proof {
                    lemma_front(s, n - 1);
                    assert(as_map(all@) =~= a.union_prefer_right(as_map(s.skip(n - 1))));
                }
            },
        }
    }
    assert(s.skip(0) =~= s);
    all
}

proof fn lemma_tail_ascending(s: Seq<(Seq<char>, AnswerView)>, i: int)
    requires
        ascending(s),
        0 <= i <= s.len(),
    ensures
        ascending(s.skip(i)),
{
    let t = s.skip(i);
    assert forall|x: int, y: int| 0 <= x < y < t.len() implies key_before(
        #[trigger] t[x].0,
        #[trigger] t[y].0,
    ) by {
        assert(key_before(s[i + x].0, s[i + y].0));
    }
}

/// The map of ordered entries is the map of all but the first, with the first
/// put in.
proof fn lemma_front(s: Seq<(Seq<char>, AnswerView)>, i: int)
    requires
        ascending(s),
        0 <= i < s.len(),
    ensures
        as_map(s.skip(i)) == as_map(s.skip(i + 1)).insert(s[i].0, s[i].1),
{
    let t = s.skip(i);
    let u = s.skip(i + 1);
    let m = as_map(u).insert(s[i].0, s[i].1);
    lemma_tail_ascending(s, i);
    lemma_tail_ascending(s, i + 1);
    assert forall|k: Seq<char>| as_map(t).dom().contains(k) <==> m.dom().contains(k) by {
        if has_key(t, k) {
            let j = choose|j: int| 0 <= j < t.len() && #[trigger] t[j].0 == k;
            if j > 0 {
                assert(u[j - 1].0 == k);
            }
        }
        if has_key(u, k) {
            let j = choose|j: int| 0 <= j < u.len() && #[trigger] u[j].0 == k;
            assert(t[j + 1].0 == k);
        }
        assert(t[0].0 == s[i].0);
    }
    assert forall|k: Seq<char>| as_map(t).dom().contains(k) implies as_map(t)[k] == m[k] by {
        let j = choose|j: int| 0 <= j < t.len() && #[trigger] t[j].0 == k;
        lemma_value_at(t, j);
        if j > 0 {
            assert(u[j - 1] == t[j]);
            lemma_value_at(u, j - 1);
            assert(key_before(t[0].0, t[j].0));
            key_order_irreflexive(k);
        }
    }
    assert(as_map(t) =~= m);
}

/// Where the wave ends that chunk `i` of a batch of `total` chunks belongs to.
pub open spec fn wave_end(i: nat, total: nat) -> nat {
    let end = (i - i % (WAVE as nat) + WAVE) as nat;
    if end < total {
        end
    } else {
        total
    }
}

/// What the outcomes of requests hold.
pub open spec fn outcomes(s: Seq<Result<Response, Error>>) -> Seq<Outcome> {
    s.map_values(|r: Result<Response, Error>| outcome(r))
}

/// A batch whose chunks are sent in waves and whose responses are merged in order
/// once the whole wave has come back.
#[derive(Debug)]
pub struct Merge {
    merged: Response,
    total: usize,
    next: usize,
    done: usize,
    landed: Vec<Result<Response, Error>>,
}

/// What a [`Merge`] holds.
#[verifier::ext_equal]
pub struct MergeView {
    /// The responses to the chunks that are done.
    pub merged: ResponseView,
    /// The number of chunks of the batch.
    pub total: nat,
    /// The number of chunks that were sent.
    pub next: nat,
    /// The number of chunks whose responses were merged.
    pub done: nat,
    /// What came back for the chunks behind those that are done.
    pub landed: Seq<Outcome>,
}

impl MergeView {
    /// Chunks are sent a whole wave at a time, come back after they were sent, and
    /// are done after they came back.
    pub open spec fn wf(self) -> bool {
        &&& self.done <= self.next <= self.total
        &&& self.landed.len() <= self.next - self.done
        &&& self.done < self.next ==> self.next == wave_end(self.done, self.total)
        &&& self.done == self.next ==> self.done % (WAVE as nat) == 0 || self.done == self.total
    }

    /// The number of chunks that were sent and have not come back.
    pub open spec fn in_flight(self) -> int {
        self.next - self.done - self.landed.len()
    }

    /// Whether chunk `i` was sent.
    pub open spec fn was_sent(self, i: int) -> bool {
        0 <= i < self.next
    }

    /// Whether chunk `i` came back.
    pub open spec fn came_back(self, i: int) -> bool {
        0 <= i < self.done + self.landed.len()
    }

    /// A batch of `total` chunks, none of them sent.
    pub open spec fn start(total: nat) -> MergeView {
        MergeView {
            merged: ResponseView::blank(),
            total,
            next: 0,
            done: 0,
            landed: Seq::empty(),
        }
    }

    /// After the next wave was sent.
    pub open spec fn launched(self) -> MergeView {
        MergeView { next: wave_end(self.done, self.total), ..self }
    }

    /// After the first chunk in flight came back.
    pub open spec fn with_landed(self, outcome: Outcome) -> MergeView {
        MergeView { landed: self.landed.push(outcome), ..self }
    }

    /// After what came back for the first chunk that is not done was merged: a
    /// failure ends the batch.
    pub open spec fn absorbed(self) -> Result<MergeView, ErrorView> {
        match self.landed[0] {
            Err(e) => Err(e),
            Ok(response) => match merged_with(self.merged, response) {
                Err(e) => Err(e),
                Ok(merged) => Ok(
                    MergeView {
                        merged,
                        done: self.done + 1,
                        landed: self.landed.drop_first(),
                        ..self
                    },
                ),
            },
        }
    }

    /// Whether the next wave can be sent: all before it is merged, and some chunk
    /// is left.
    pub open spec fn can_launch(self) -> bool {
        self.next == self.done && self.done < self.total
    }

    /// Whether merging can go on: something came back, and nothing is in flight.
    pub open spec fn has_landed(self) -> bool {
        self.in_flight() == 0 && self.landed.len() > 0
    }

    /// Whether the tokens of the outcome to be merged next can be added to those
    /// so far.
    pub open spec fn fits(self) -> bool {
        self.landed[0] matches Ok(response) ==> self.merged.usage.fits(response.usage)
    }
}

impl View for Merge {
    type V = MergeView;

    closed spec fn view(&self) -> MergeView {
        MergeView {
            merged: self.merged@,
            total: self.total as nat,
            next: self.next as nat,
            done: self.done as nat,
            landed: outcomes(self.landed@),
        }
    }
}

impl Merge {
    /// Chunks are sent a whole wave at a time, come back after they were sent, and
    /// are done after they came back.
    #[verifier::type_invariant]
    pub open spec fn wf(self) -> bool {
        self@.wf()
    }

    /// A batch of `chunks` chunks, none of them sent.
    pub fn new(chunks: usize) -> (r: Merge)
        ensures
            r@ == MergeView::start(chunks as nat),
            r@.wf(),
    {
        let landed: Vec<Result<Response, Error>> = Vec::new();
        assert(outcomes(landed@) =~= Seq::<Outcome>::empty());
        Merge { merged: Response::default(), total: chunks, next: 0, done: 0, landed }
    }

    /// Whether every chunk was sent and merged.
    pub fn is_complete(&self) -> (b: bool)
        ensures
            b == (self@.done == self@.total),
    {
        self.done == self.total
    }

    /// Takes the next wave: the number of chunks to send now, starting with the
    /// first that is not done.
    pub fn launch(&mut self) -> (n: usize)
        requires
            old(self)@.can_launch(),
        ensures
            final(self)@ == old(self)@.launched(),
            final(self)@.wf(),
            n == final(self)@.in_flight(),
            1 <= n <= WAVE,
    {
        proof {
            use_type_invariant(&*self);
        }
        let left: usize = self.total - self.done;
        let n: usize = if left < WAVE {
            left
        } else {
            WAVE
        };
        self.next = self.done + n;
        n
    }

    /// Takes what came back for the first chunk in flight.
    pub fn land(&mut self, response: Result<Response, Error>)
        requires
            old(self)@.in_flight() > 0,
        ensures
            final(self)@ == old(self)@.with_landed(outcome(response)),
            final(self)@.wf(),
    {
        proof {
            use_type_invariant(&*self);
        }
        let ghost before = self.landed@;
        let mut landed: Vec<Result<Response, Error>> = Vec::new();
        std::mem::swap(&mut self.landed, &mut landed);
        landed.push(response);
        assert(outcomes(landed@) =~= outcomes(before).push(outcome(response)));
        self.landed = landed;
    }

    /// Whether the tokens of the response to be merged next can be added to those
    /// so far.
    pub fn can_absorb(&self) -> (b: bool)
        requires
            self@.landed.len() > 0,
        ensures
            b == self@.fits(),
    {
        assert(self@.landed[0] == outcome(self.landed@[0]));
        match &self.landed[0] {
            Ok(r) => self.merged.usage.can_add(&r.usage),
            Err(_) => true,
        }
    }

    /// Merges what came back for the first chunk that is not done, once nothing is
    /// in flight. A failure ends the batch, so no later wave is sent.
    pub fn absorb(self) -> (r: Result<Merge, Error>)
        requires
            self@.has_landed(),
            self@.fits(),
        ensures
            match r {
                Ok(m) => self@.absorbed() == Ok::<MergeView, ErrorView>(m@) && m@.wf(),
                Err(e) => self@.absorbed() == Err::<MergeView, ErrorView>(e@),
            },
    {
        proof {
            use_type_invariant(&self);
        }
        let ghost before = self.landed@;
        let mut landed = self.landed;
        let response = landed.remove(0);
        assert(outcomes(before)[0] == outcome(response));
        assert(outcomes(landed@) =~= outcomes(before).drop_first());
        match response {
            Err(e) => Err(e),
            Ok(response) => match merge_response(self.merged, response) {
                Err(e) => Err(e),
                Ok(merged) => Ok(
                    Merge {
                        merged,
                        total: self.total,
                        next: self.next,
                        done: self.done + 1,
                        landed,
                    },
                ),
            },
        }
    }

    /// The merged response of a batch whose chunks are all done.
    pub fn finish(self) -> (r: Response)
        requires
            self@.done == self@.total,
        ensures
            r@ == self@.merged,
            self@.in_flight() == 0,
    {
        proof {
            use_type_invariant(&self);
        }
        self.merged
    }
}

/// A batch from the state `m` to its end, where `outcomes[i]` is what the request
/// for chunk `i` gives: the outcome of the batch, and how many requests were
/// sent.
pub open spec fn run(m: MergeView, outcomes: Seq<Outcome>) -> (Outcome, nat)
    decreases m.total - m.done, m.done + WAVE - m.next, m.in_flight(),
{
    if !m.wf() || m.done >= m.total {
        (Ok(m.merged), m.next)
    } else if m.next == m.done {
        run(m.launched(), outcomes)
    } else if m.in_flight() > 0 {
        run(m.with_landed(outcomes[(m.done + m.landed.len()) as int]), outcomes)
    } else {
        match m.absorbed() {
            Ok(after) => run(after, outcomes),
            Err(e) => (Err(e), m.next),
        }
    }
}

/// Whether what came back so far is what the requests give.
pub open spec fn landed_from(m: MergeView, outcomes: Seq<Outcome>) -> bool {
    &&& m.total == outcomes.len()
    &&& forall|i: int|
        0 <= i < m.landed.len() ==> #[trigger] m.landed[i] == outcomes[m.done + i]
}

proof fn lemma_run(m: MergeView, outcomes: Seq<Outcome>)
    requires
        m.wf(),
        landed_from(m, outcomes),
    ensures
        run(m, outcomes).0 == merged_all(m.merged, outcomes.skip(m.done as int)),
        run(m, outcomes).0 is Ok ==> run(m, outcomes).1 == m.total,
        run(m, outcomes).1 <= m.total,
    decreases m.total - m.done, m.done + WAVE - m.next, m.in_flight(),
{
    let rest = outcomes.skip(m.done as int);
    if m.done >= m.total {
        assert(rest =~= Seq::empty());
    } else if m.next == m.done {
        assert(run(m, outcomes) == run(m.launched(), outcomes));
        lemma_run(m.launched(), outcomes);
    } else if m.in_flight() > 0 {
        let after = m.with_landed(outcomes[(m.done + m.landed.len()) as int]);
        assert(run(m, outcomes) == run(after, outcomes));
        lemma_run(after, outcomes);
    } else {
        assert(m.landed[0] == outcomes[m.done as int]);
        assert(rest[0] == outcomes[m.done as int]);
        assert(rest.drop_first() =~= outcomes.skip(m.done as int + 1));
        if let Ok(after) = m.absorbed() {
            lemma_absorbed(m, after, outcomes);
            assert(run(m, outcomes) == run(after, outcomes));
            assert(merged_all(m.merged, rest) == merged_all(after.merged, rest.drop_first()));
            lemma_run(after, outcomes);
        } else {
            assert(run(m, outcomes) == (
                Err::<ResponseView, ErrorView>(m.absorbed()->Err_0),
                m.next,
            ));
        }
    }
}

proof fn lemma_absorbed(m: MergeView, after: MergeView, outcomes: Seq<Outcome>)
    requires
        m.wf(),
        landed_from(m, outcomes),
        m.has_landed(),
        m.absorbed() == Ok::<MergeView, ErrorView>(after),
    ensures
        after.wf(),
        landed_from(after, outcomes),
        outcomes[m.done as int] is Ok,
{
    assert(m.landed[0] == outcomes[m.done as int]);
    assert forall|i: int| 0 <= i < after.landed.len() implies #[trigger] after.landed[i]
        == outcomes[after.done + i] by {
        assert(after.landed[i] == m.landed[i + 1]);
    }
}

/// Sending in waves does not show in the result: a batch ends as if its chunks
/// were merged one after the other. Where it succeeds, every chunk was sent, and
/// none is sent twice.
pub proof fn waves_do_not_show(outcomes: Seq<Outcome>)
    ensures
        run(MergeView::start(outcomes.len()), outcomes).0 == merged_all(
            ResponseView::blank(),
            outcomes,
        ),
        run(MergeView::start(outcomes.len()), outcomes).0 is Ok ==> run(
            MergeView::start(outcomes.len()),
            outcomes,
        ).1 == outcomes.len(),
        run(MergeView::start(outcomes.len()), outcomes).1 <= outcomes.len(),
{
    lemma_run(MergeView::start(outcomes.len()), outcomes);
    assert(outcomes.skip(0) =~= outcomes);
}

proof fn lemma_sent(m: MergeView, outcomes: Seq<Outcome>, i: int)
    requires
        m.wf(),
        landed_from(m, outcomes),
        m.done <= i < m.total,
        merged_all(m.merged, outcomes.subrange(m.done as int, i)) is Ok,
        merged_all(m.merged, outcomes.subrange(m.done as int, i + 1)) is Err,
    ensures
        run(m, outcomes).0 == merged_all(m.merged, outcomes.subrange(m.done as int, i + 1)),
        run(m, outcomes).1 == wave_end(i as nat, m.total),
    decreases m.total - m.done, m.done + WAVE - m.next, m.in_flight(),
{
    if m.next == m.done {
        assert(run(m, outcomes) == run(m.launched(), outcomes));
        lemma_sent(m.launched(), outcomes, i);
    } else if m.in_flight() > 0 {
        let after = m.with_landed(outcomes[(m.done + m.landed.len()) as int]);
        assert(run(m, outcomes) == run(after, outcomes));
        lemma_sent(after, outcomes, i);
    } else {
        let d = m.done as int;
        let upto = outcomes.subrange(d, i);
        let with = outcomes.subrange(d, i + 1);
        assert(m.landed[0] == outcomes[d]);
        assert(with[0] == outcomes[d]);
        assert(with.drop_first() =~= outcomes.subrange(d + 1, i + 1));
        if d < i {
            assert(upto[0] == outcomes[d]);
            assert(upto.drop_first() =~= outcomes.subrange(d + 1, i));
            let after = m.absorbed()->Ok_0;
            lemma_absorbed(m, after, outcomes);
            assert(run(m, outcomes) == run(after, outcomes));
            assert(merged_all(m.merged, with) == merged_all(after.merged, with.drop_first()));
            lemma_sent(after, outcomes, i);
        } else {
            assert(with.drop_first() =~= Seq::empty());
            if let Ok(after) = m.absorbed() {
                assert(merged_all(m.merged, with) == merged_all(after.merged, with.drop_first()));
            }
            assert(m.absorbed() is Err);
            assert(run(m, outcomes) == (
                Err::<ResponseView, ErrorView>(m.absorbed()->Err_0),
                m.next,
            ));
        }
    }
}

/// Where chunk `i` is the first that fails or cannot be merged, its error is that
/// of the batch, and the chunks up to the end of its wave are sent and no others.
pub proof fn first_failure_ends_with_its_wave(outcomes: Seq<Outcome>, i: int)
    requires
        0 <= i < outcomes.len(),
        merged_all(ResponseView::blank(), outcomes.take(i)) is Ok,
        merged_all(ResponseView::blank(), outcomes.take(i + 1)) is Err,
    ensures
        run(MergeView::start(outcomes.len()), outcomes).0 == merged_all(
            ResponseView::blank(),
            outcomes.take(i + 1),
        ),
        run(MergeView::start(outcomes.len()), outcomes).1 == wave_end(i as nat, outcomes.len()),
{
    assert(outcomes.subrange(0, i) =~= outcomes.take(i));
    assert(outcomes.subrange(0, i + 1) =~= outcomes.take(i + 1));
    lemma_sent(MergeView::start(outcomes.len()), outcomes, i);
}

proof fn lemma_failure_shows(merged: ResponseView, outcomes: Seq<Outcome>)
    requires
        outcomes.len() > 0,
        outcomes.last() is Err,
    ensures
        merged_all(merged, outcomes) is Err,
    decreases outcomes.len(),
{
    if outcomes.len() > 1 {
        if let Ok(response) = outcomes[0] {
            if let Ok(m) = merged_with(merged, response) {
                assert(outcomes.drop_first().last() == outcomes.last());
                lemma_failure_shows(m, outcomes.drop_first());
            }
        }
    }
}

proof fn lemma_first_failure(outcomes: Seq<Outcome>, i: int) -> (first: int)
    requires
        0 <= i < outcomes.len(),
        merged_all(ResponseView::blank(), outcomes.take(i + 1)) is Err,
    ensures
        0 <= first <= i,
        merged_all(ResponseView::blank(), outcomes.take(first)) is Ok,
        merged_all(ResponseView::blank(), outcomes.take(first + 1)) is Err,
    decreases i,
{
    if i == 0 || merged_all(ResponseView::blank(), outcomes.take(i)) is Ok {
        i
    } else {
        lemma_first_failure(outcomes, i - 1)
    }
}

/// A failed chunk fails the batch and aborts the remaining waves: no chunk behind
/// the wave of the failed one is sent.
pub proof fn failed_chunk_aborts_later_waves(outcomes: Seq<Outcome>, i: int)
    requires
        0 <= i < outcomes.len(),
        outcomes[i] is Err,
    ensures
        run(MergeView::start(outcomes.len()), outcomes).0 is Err,
        run(MergeView::start(outcomes.len()), outcomes).1 <= wave_end(i as nat, outcomes.len()),
{
    lemma_failure_shows(ResponseView::blank(), outcomes.take(i + 1));
    let first = lemma_first_failure(outcomes, i);
    first_failure_ends_with_its_wave(outcomes, first);
}

/// Whether a batch can go from `a` to `b`, where `outcomes[i]` is what the request
/// for chunk `i` gives: the next wave is sent, a request comes back, or what came
/// back is merged.
pub open spec fn moves(a: MergeView, b: MergeView, outcomes: Seq<Outcome>) -> bool {
    ||| a.can_launch() && b == a.launched()
    ||| a.in_flight() > 0 && b == a.with_landed(outcomes[(a.done + a.landed.len()) as int])
    ||| a.has_landed() && a.absorbed() == Ok::<MergeView, ErrorView>(b)
}

/// Whether state `k` follows the state before it.
pub open spec fn follows(states: Seq<MergeView>, k: int, outcomes: Seq<Outcome>) -> bool {
    moves(states[k - 1], states[k], outcomes)
}

/// Whether the states are those of a batch from its start on, one after the other.
pub open spec fn is_history(states: Seq<MergeView>, outcomes: Seq<Outcome>) -> bool {
    &&& states.len() > 0
    &&& states[0] == MergeView::start(outcomes.len())
    &&& forall|k: int| 0 < k < states.len() ==> #[trigger] follows(states, k, outcomes)
}

/// What a batch in state `m` gives back, if it ends there.
pub open spec fn ending(m: MergeView) -> Option<Outcome> {
    if m.done == m.total {
        Some(Ok(m.merged))
    } else if m.has_landed() && m.absorbed() is Err {
        Some(Err(m.absorbed()->Err_0))
    } else {
        None
    }
}

proof fn lemma_history(states: Seq<MergeView>, outcomes: Seq<Outcome>, k: int)
    requires
        is_history(states, outcomes),
        0 <= k < states.len(),
    ensures
        states[k].wf(),
        landed_from(states[k], outcomes),
        forall|j: int| 0 <= j < states[k].done ==> (#[trigger] outcomes[j]) is Ok,
        run(states[k], outcomes) == run(states[0], outcomes),
    decreases k,
{
    if k > 0 {
        lemma_history(states, outcomes, k - 1);
        let a = states[k - 1];
        let b = states[k];
        assert(follows(states, k, outcomes));
        if a.has_landed() {
            lemma_absorbed(a, b, outcomes);
        }
        assert(run(a, outcomes) == run(b, outcomes));
    }
}

proof fn lemma_ending(m: MergeView, outcomes: Seq<Outcome>)
    requires
        m.wf(),
    ensures
        ending(m) matches Some(result) ==> m.in_flight() == 0 && run(m, outcomes) == (
            result,
            m.next,
        ),
{
    if m.done < m.total && ending(m) is Some {
        assert(m.next > m.done);
        assert(run(m, outcomes) == (
            Err::<ResponseView, ErrorView>(m.absorbed()->Err_0),
            m.next,
        ));
    }
}

/// At every moment of a batch at most two requests are in flight. The requests of a
/// wave were sent only after those of all waves before came back with success. When
/// the batch ends, with success or with a failure, none is in flight, and it ends as
/// `run` says.
pub proof fn requests_keep_to_waves(states: Seq<MergeView>, outcomes: Seq<Outcome>, k: int)
    requires
        is_history(states, outcomes),
        0 <= k < states.len(),
    ensures
        0 <= states[k].in_flight() <= WAVE,
        forall|i: int, j: int|
            #[trigger] states[k].was_sent(i) && 0 <= j < i - i % (WAVE as int)
                ==> #[trigger] states[k].came_back(j) && outcomes[j] is Ok,
        ending(states[k]) matches Some(result) ==> {
            &&& forall|i: int| #[trigger] states[k].was_sent(i) ==> states[k].came_back(i)
            &&& run(MergeView::start(outcomes.len()), outcomes) == (result, states[k].next)
        },
{
    lemma_history(states, outcomes, k);
    let m = states[k];
    lemma_ending(m, outcomes);
    assert forall|i: int, j: int|
        #[trigger] m.was_sent(i) && 0 <= j < i - i % (WAVE as int) implies #[trigger] m.came_back(j)
        && outcomes[j] is Ok by {
        assert(j < m.done);
    }
}

/// A batch that has not ended can go on.
pub proof fn batch_goes_on_to_its_end(states: Seq<MergeView>, outcomes: Seq<Outcome>, k: int)
    requires
        is_history(states, outcomes),
        0 <= k < states.len(),
        ending(states[k]) is None,
    ensures
        exists|next: MergeView| moves(states[k], next, outcomes),
{
    lemma_history(states, outcomes, k);
    let m = states[k];
    let next = if m.can_launch() {
        m.launched()
    } else if m.in_flight() > 0 {
        m.with_landed(outcomes[(m.done + m.landed.len()) as int])
    } else {
        m.absorbed()->Ok_0
    };
    assert(moves(m, next, outcomes));
}

/// The tokens of all responses.
pub open spec fn total_input(outcomes: Seq<Outcome>) -> nat
    decreases outcomes.len(),
{
    if outcomes.len() == 0 {
        0
    } else {
        (match outcomes[0] {
            Ok(r) => r.usage.input_tokens as nat,
            Err(_) => 0,
        }) + total_input(outcomes.drop_first())
    }
}

/// The output tokens of all responses.
pub open spec fn total_output(outcomes: Seq<Outcome>) -> nat
    decreases outcomes.len(),
{
    if outcomes.len() == 0 {
        0
    } else {
        (match outcomes[0] {
            Ok(r) => r.usage.output_tokens as nat,
            Err(_) => 0,
        }) + total_output(outcomes.drop_first())
    }
}

/// Where a batch succeeds, every chunk did, and the tokens of all chunks add up.
pub proof fn merging_adds_up_usage(merged: ResponseView, outcomes: Seq<Outcome>)
    requires
        merged_all(merged, outcomes) is Ok,
        merged.usage.input_tokens + total_input(outcomes) <= u64::MAX,
        merged.usage.output_tokens + total_output(outcomes) <= u64::MAX,
    ensures
        forall|i: int| 0 <= i < outcomes.len() ==> (#[trigger] outcomes[i]) is Ok,
        merged_all(merged, outcomes)->Ok_0.usage.input_tokens == merged.usage.input_tokens
            + total_input(outcomes),
        merged_all(merged, outcomes)->Ok_0.usage.output_tokens == merged.usage.output_tokens
            + total_output(outcomes),
    decreases outcomes.len(),
{
    if outcomes.len() > 0 {
        let m = merged_with(merged, outcomes[0]->Ok_0)->Ok_0;
        let rest = outcomes.drop_first();
        merging_adds_up_usage(m, rest);
        assert forall|i: int| 0 <= i < outcomes.len() implies (#[trigger] outcomes[i]) is Ok by {
            if i > 0 {
                assert(rest[i - 1] == outcomes[i]);
            }
        }
    }
}

/// Where a batch succeeds, it has the answers of all its chunks and no others,
/// and no key is answered by two of them.
pub proof fn merging_joins_answers(merged: ResponseView, outcomes: Seq<Outcome>, key: Seq<char>)
    requires
        merged_all(merged, outcomes) is Ok,
    ensures
        merged_all(merged, outcomes)->Ok_0.answers.dom().contains(key) <==> merged.answers.dom().contains(
            key,
        ) || exists|i: int|
            0 <= i < outcomes.len() && (#[trigger] outcomes[i])->Ok_0.answers.dom().contains(key),
        merged.answers.dom().contains(key) ==> merged_all(merged, outcomes)->Ok_0.answers[key]
            == merged.answers[key],
        forall|i: int|
            0 <= i < outcomes.len() && (#[trigger] outcomes[i])->Ok_0.answers.dom().contains(key)
                ==> !merged.answers.dom().contains(key) && merged_all(
                merged,
                outcomes,
            )->Ok_0.answers[key] == outcomes[i]->Ok_0.answers[key],
        forall|i: int, j: int|
            0 <= i < j < outcomes.len() && (#[trigger] outcomes[i])->Ok_0.answers.dom().contains(
                key,
            ) ==> !(#[trigger] outcomes[j])->Ok_0.answers.dom().contains(key),
    decreases outcomes.len(),
{
    if outcomes.len() > 0 {
        let first = outcomes[0]->Ok_0;
        let m = merged_with(merged, first)->Ok_0;
        let rest = outcomes.drop_first();
        merging_joins_answers(m, rest, key);
        assert(m.answers == merged.answers.union_prefer_right(first.answers));
        assert(merged.answers.dom().contains(key) ==> !first.answers.dom().contains(key));
        if exists|i: int|
            0 <= i < rest.len() && (#[trigger] rest[i])->Ok_0.answers.dom().contains(key) {
            let i = choose|i: int|
                0 <= i < rest.len() && (#[trigger] rest[i])->Ok_0.answers.dom().contains(key);
            assert(outcomes[i + 1] == rest[i]);
        }
        assert forall|i: int| 0 < i < outcomes.len() implies #[trigger] outcomes[i] == rest[
            i - 1] by {}
        assert forall|i: int, j: int|
            0 <= i < j < outcomes.len() && (#[trigger] outcomes[i])->Ok_0.answers.dom().contains(
                key,
            ) implies !(#[trigger] outcomes[j])->Ok_0.answers.dom().contains(key) by {
            assert(outcomes[j] == rest[j - 1]);
            if i > 0 {
                assert(outcomes[i] == rest[i - 1]);
            }
        }
    }
}

/// A merged response names the first model that any chunk named.
pub proof fn merging_keeps_first_model(merged: ResponseView, outcomes: Seq<Outcome>)
    requires
        merged_all(merged, outcomes) is Ok,
    ensures
        merged.model.len() > 0 ==> merged_all(merged, outcomes)->Ok_0.model == merged.model,
        forall|i: int|
            0 <= i < outcomes.len() && merged.model.len() == 0 && (forall|j: int|
                0 <= j < i ==> (#[trigger] outcomes[j])->Ok_0.model.len() == 0)
                && (#[trigger] outcomes[i])->Ok_0.model.len() > 0 ==> merged_all(
                merged,
                outcomes,
            )->Ok_0.model == outcomes[i]->Ok_0.model,
    decreases outcomes.len(),
{
    if outcomes.len() > 0 {
        let first = outcomes[0]->Ok_0;
        let m = merged_with(merged, first)->Ok_0;
        let rest = outcomes.drop_first();
        merging_keeps_first_model(m, rest);
        assert forall|i: int|
            0 <= i < outcomes.len() && merged.model.len() == 0 && (forall|j: int|
                0 <= j < i ==> (#[trigger] outcomes[j])->Ok_0.model.len() == 0)
                && (#[trigger] outcomes[i])->Ok_0.model.len() > 0 implies merged_all(
            merged,
            outcomes,
        )->Ok_0.model == outcomes[i]->Ok_0.model by {
            if i > 0 {
                assert(outcomes[0]->Ok_0.model.len() == 0);
                assert(outcomes[i] == rest[i - 1]);
                assert forall|j: int| 0 <= j < i - 1 implies (#[trigger] rest[j])->Ok_0.model.len()
                    == 0 by {
                    assert(rest[j] == outcomes[j + 1]);
                }
            }
        }
    }
}

/// Two responses can be joined exactly if no key is answered by both. The joined response
/// has the answers of both, the sums of their tokens, and the model of the first that
/// names one.
pub proof fn responses_join_without_a_shared_key(
    merged: ResponseView,
    response: ResponseView,
    key: Seq<char>,
)
    ensures
        merged_with(merged, response) is Ok <==> forall|k: Seq<char>|
            !(#[trigger] merged.answers.dom().contains(k) && response.answers.dom().contains(k)),
        merged_with(merged, response) matches Ok(m) ==> {
            &&& merged.model.len() > 0 ==> m.model == merged.model
            &&& merged.model.len() == 0 ==> m.model == response.model
            &&& merged.usage.input_tokens + response.usage.input_tokens <= u64::MAX
                ==> m.usage.input_tokens == merged.usage.input_tokens + response.usage.input_tokens
            &&& merged.usage.output_tokens + response.usage.output_tokens <= u64::MAX
                ==> m.usage.output_tokens == merged.usage.output_tokens
                + response.usage.output_tokens
            &&& m.answers.dom().contains(key) <==> merged.answers.dom().contains(key)
                || response.answers.dom().contains(key)
            &&& merged.answers.dom().contains(key) ==> m.answers[key] == merged.answers[key]
            &&& response.answers.dom().contains(key) ==> m.answers[key] == response.answers[key]
        },
{
}

/// Where keys are answered by both, the first of them in order is named.
pub proof fn first_shared_key_is_named(
    merged: ResponseView,
    response: ResponseView,
    key: Seq<char>,
)
    requires
        merged.answers.dom().contains(key),
        response.answers.dom().contains(key),
        forall|k: Seq<char>|
            #[trigger] merged.answers.dom().contains(k) && response.answers.dom().contains(k)
                ==> k == key || key_before(key, k),
    ensures
        merged_with(merged, response) == Err::<ResponseView, ErrorView>(
            ErrorView::Decode("duplicate answer key across question chunks: "@ + key),
        ),
{
    assert(is_first_shared(merged.answers, response.answers, key));
    lemma_first_shared(merged.answers, response.answers, key);
}

/// Outcomes are merged one after the other: the next one is joined to what the earlier ones
/// came to, and the first failure stays.
pub proof fn outcomes_are_merged_in_order(
    merged: ResponseView,
    outcomes: Seq<Outcome>,
    next: Outcome,
)
    ensures
        merged_all(merged, Seq::empty()) == Ok::<ResponseView, ErrorView>(merged),
        match merged_all(merged, outcomes) {
            Err(e) => merged_all(merged, outcomes.push(next)) == Err::<ResponseView, ErrorView>(e),
            Ok(m) => match next {
                Err(e) => merged_all(merged, outcomes.push(next)) == Err::<ResponseView, ErrorView>(
                    e,
                ),
                Ok(response) => merged_all(merged, outcomes.push(next)) == merged_with(m, response),
            },
        },
    decreases outcomes.len(),
{
    let all = outcomes.push(next);
    if outcomes.len() == 0 {
        assert(all.drop_first() =~= Seq::<Outcome>::empty());
        assert(all[0] == next);
        if let Ok(response) = next {
            if let Ok(m) = merged_with(merged, response) {
                assert(merged_all(m, all.drop_first()) == Ok::<ResponseView, ErrorView>(m));
            }
        }
    } else {
        assert(all[0] == outcomes[0]);
        assert(all.drop_first() =~= outcomes.drop_first().push(next));
        if let Ok(response) = outcomes[0] {
            if let Ok(m) = merged_with(merged, response) {
                outcomes_are_merged_in_order(m, outcomes.drop_first(), next);
            }
        }
    }
}

/// Chunks go out two by two: the first two, then the next two, and a last one alone.
pub proof fn waves_in_numbers(i: nat, total: nat)
    ensures
        2 * i + 2 <= total ==> wave_end(2 * i, total) == 2 * i + 2 && wave_end(2 * i + 1, total)
            == 2 * i + 2,
        2 * i + 1 == total ==> wave_end(2 * i, total) == total,
{
}

/// The tokens of every response count.
pub proof fn tokens_of_all_responses_count(outcomes: Seq<Outcome>, next: Outcome)
    ensures
        total_input(Seq::empty()) == 0,
        total_output(Seq::empty()) == 0,
        total_input(outcomes.push(next)) == total_input(outcomes) + (match next {
            Ok(r) => r.usage.input_tokens as nat,
            Err(_) => 0,
        }),
        total_output(outcomes.push(next)) == total_output(outcomes) + (match next {
            Ok(r) => r.usage.output_tokens as nat,
            Err(_) => 0,
        }),
    decreases outcomes.len(),
{
    let all = outcomes.push(next);
    if outcomes.len() == 0 {
        assert(all.drop_first() =~= Seq::<Outcome>::empty());
        assert(total_input(all.drop_first()) == 0);
        assert(total_output(all.drop_first()) == 0);
    } else {
        assert(all.drop_first() =~= outcomes.drop_first().push(next));
        assert(all[0] == outcomes[0]);
        tokens_of_all_responses_count(outcomes.drop_first(), next);
    }
}

/// What the steps of a batch change. Sending a wave changes what was sent. A request that
/// comes back is put behind those that came back before it. Merging takes the first that
/// came back, counts it as done, and leaves the others.
pub proof fn batch_steps_change_one_thing(m: MergeView, back: Outcome)
    ensures
        m.launched().merged == m.merged && m.launched().total == m.total && m.launched().done
            == m.done && m.launched().landed == m.landed,
        m.done % 2 == 0 && m.done < m.total ==> m.done < m.launched().next <= m.done + 2
            && m.launched().next <= m.total && (m.launched().next < m.done + 2
            ==> m.launched().next == m.total),
        m.with_landed(back).landed == m.landed.push(back),
        m.with_landed(back).merged == m.merged && m.with_landed(back).total == m.total
            && m.with_landed(back).next == m.next && m.with_landed(back).done == m.done,
        m.landed.len() > 0 ==> match m.absorbed() {
            Err(e) => merged_all(m.merged, m.landed.take(1)) == Err::<ResponseView, ErrorView>(e),
            Ok(after) => {
                &&& merged_all(m.merged, m.landed.take(1)) == Ok::<ResponseView, ErrorView>(
                    after.merged,
                )
                &&& after.done == m.done + 1
                &&& after.landed == m.landed.skip(1)
                &&& after.total == m.total && after.next == m.next
            },
        },
        m.in_flight() == m.next - m.done - m.landed.len(),
        m.can_launch() <==> m.done == m.next && m.done < m.total,
        m.has_landed() <==> m.landed.len() > 0 && m.landed.len() == m.next - m.done,
        m.landed.len() > 0 && m.landed[0] is Err ==> m.fits(),
        m.landed.len() > 0 && m.landed[0] is Ok ==> (m.fits() <==> m.merged.usage.input_tokens
            + m.landed[0]->Ok_0.usage.input_tokens <= u64::MAX && m.merged.usage.output_tokens
            + m.landed[0]->Ok_0.usage.output_tokens <= u64::MAX),
{
    if m.landed.len() > 0 {
        let one = m.landed.take(1);
        assert(one[0] == m.landed[0]);
        assert(one.drop_first() =~= Seq::<Outcome>::empty());
        assert(m.landed.drop_first() =~= m.landed.skip(1));
        if let Ok(response) = one[0] {
            if let Ok(x) = merged_with(m.merged, response) {
                assert(merged_all(x, one.drop_first()) == Ok::<ResponseView, ErrorView>(x));
            }
        }
    }
}

/// A batch starts with no chunk sent, none back, none done, and a blank response.
pub proof fn batch_starts_with_nothing_sent(total: nat)
    ensures
        MergeView::start(total).merged == ResponseView::blank(),
        MergeView::start(total).total == total,
        MergeView::start(total).next == 0,
        MergeView::start(total).done == 0,
        MergeView::start(total).landed.len() == 0,
{
}

/// An outcome is seen with its response or its error.
pub proof fn outcome_shows_all(r: Result<Response, Error>)
    ensures
        r matches Ok(response) ==> outcome(r) == Ok::<ResponseView, ErrorView>(response@),
        r matches Err(e) ==> outcome(r) == Err::<ResponseView, ErrorView>(e@),
{
}

} // verus!
