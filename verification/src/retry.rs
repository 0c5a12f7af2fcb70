//! Whether a physical request is sent again.

#[allow(unused_imports)]
use vstd::arithmetic::power2::{
    lemma2_to64, lemma_pow2_pos, lemma_pow2_strictly_increases, lemma_pow2_unfold, pow2,
};
use vstd::prelude::*;

use crate::error::Error;
#[allow(unused_imports)]
use crate::error::ErrorView;
use crate::number::append_decimal;
#[allow(unused_imports)]
use crate::number::decimal;

verus! {

/// How a request failed before any reply.
#[derive(Clone, Copy, Debug, PartialEq, Eq, Structural)]
pub enum Failure {
    /// The address makes no sense.
    BadUri,
    /// The request cannot be put together, such as for an invalid header.
    Http,
    /// No secure connection can be set up.
    Tls,
    /// Anything else: names, connections, timeouts.
    Other,
}

/// What came of sending a request once.
#[derive(Debug)]
pub enum PostEvent {
    Replied { status: u16, text: String },
    Failed { failure: Failure, message: String },
}

/// What a [`PostEvent`] holds.
pub enum PostEventView {
    Replied { status: u16, text: Seq<char> },
    Failed { failure: Failure, message: Seq<char> },
}

impl View for PostEvent {
    type V = PostEventView;

    open spec fn view(&self) -> PostEventView {
        match self {
            PostEvent::Replied { status, text } => PostEventView::Replied {
                status: *status,
                text: text@,
            },
            PostEvent::Failed { failure, message } => PostEventView::Failed {
                failure: *failure,
                message: message@,
            },
        }
    }
}

/// What a request came to in the end: a status and a text, or an error.
pub type Reply = Result<(u16, Seq<char>), ErrorView>;

impl PostEventView {
    /// Whether sending again may help: rate limits, overload, a server at fault,
    /// and transport failures that are not clearly permanent.
    pub open spec fn transient(self) -> bool {
        match self {
            PostEventView::Replied { status, .. } => status == 429 || status == 529 || 500 <= status
                < 600,
            PostEventView::Failed { failure, .. } => failure == Failure::Other,
        }
    }

    /// What the request comes to if it is not sent again.
    pub open spec fn reply(self) -> Reply {
        match self {
            PostEventView::Replied { status, text } => Ok((status, text)),
            PostEventView::Failed { message, .. } => Err(ErrorView::Transport(message)),
        }
    }

    /// What the user is told before waiting, where a reply is the reason.
    pub open spec fn notice(self) -> Option<Seq<char>> {
        match self {
            PostEventView::Replied { status, .. } => Some(
                "  ! jev: HTTP "@ + decimal(status as nat)
                    + ", backing off (further retries are counted silently; see footer)"@,
            ),
            PostEventView::Failed { .. } => None,
        }
    }
}

/// What to do after sending a request once.
#[derive(Debug)]
pub enum PostStep {
    /// Wait and send again. This is the given retry, counted from one; the notice
    /// is for the user, who sees only the first one.
    Again { attempt: u32, notice: Option<String> },
    /// The request is over.
    Done(Result<(u16, String), Error>),
}

/// What a [`PostStep`] holds.
pub enum PostStepView {
    Again { attempt: nat, notice: Option<Seq<char>> },
    Done(Reply),
}

impl View for PostStep {
    type V = PostStepView;

    open spec fn view(&self) -> PostStepView {
        match self {
            PostStep::Again { attempt, notice } => PostStepView::Again {
                attempt: *attempt as nat,
                notice: match notice {
                    Some(n) => Some(n@),
                    None => None,
                },
            },
            PostStep::Done(Ok((status, text))) => PostStepView::Done(Ok((*status, text@))),
            PostStep::Done(Err(e)) => PostStepView::Done(Err(e@)),
        }
    }
}

/// A request on its way: how often it was sent again, and how often it may be.
#[derive(Debug)]
pub struct Post {
    attempt: u32,
    max_retries: u32,
    retry: bool,
}

/// What a [`Post`] holds.
pub struct PostView {
    pub attempt: nat,
    pub max_retries: nat,
    pub retry: bool,
}

impl PostView {
    /// Whether the request is sent again after `event`.
    pub open spec fn repeats(self, event: PostEventView) -> bool {
        self.retry && event.transient() && self.attempt < self.max_retries
    }

    /// The request after one more retry.
    pub open spec fn repeated(self) -> PostView {
        PostView { attempt: self.attempt + 1, ..self }
    }
}

impl View for Post {
    type V = PostView;

    closed spec fn view(&self) -> PostView {
        PostView {
            attempt: self.attempt as nat,
            max_retries: self.max_retries as nat,
            retry: self.retry,
        }
    }
}

fn backing_off(status: u16) -> (r: String)
    ensures
        r@ == "  ! jev: HTTP "@ + decimal(status as nat)
            + ", backing off (further retries are counted silently; see footer)"@,
{
    let mut r = "  ! jev: HTTP ".to_owned();
    append_decimal(&mut r, status as u64);
    r.append(", backing off (further retries are counted silently; see footer)");
    r
}

impl Post {
    /// A request that was not sent yet. With `retry` off it is sent once only.
    pub fn new(max_retries: u32, retry: bool) -> (r: Post)
        ensures
            r@ == (PostView { attempt: 0, max_retries: max_retries as nat, retry }),
    {
        Post { attempt: 0, max_retries, retry }
    }

    /// Decides what to do after the request was sent once.
    pub fn step(&mut self, event: PostEvent) -> (r: PostStep)
        ensures
            old(self)@.repeats(event@) ==> final(self)@ == old(self)@.repeated() && r@
                == (PostStepView::Again {
                attempt: final(self)@.attempt,
                notice: event@.notice(),
            }),
            !old(self)@.repeats(event@) ==> final(self)@ == old(self)@ && r@ == PostStepView::Done(
                event@.reply(),
            ),
    {
        let transient = match &event {
            PostEvent::Replied { status, .. } => {
                let status: u16 = *status;
                status == 429 || status == 529 || (500 <= status && status < 600)
            },
            PostEvent::Failed { failure, .. } => *failure == Failure::Other,
        };
        if self.retry && transient && self.attempt < self.max_retries {
            self.attempt = self.attempt + 1;
            let notice = match event {
                PostEvent::Replied { status, .. } => Some(backing_off(status)),
                PostEvent::Failed { .. } => None,
            };
            PostStep::Again { attempt: self.attempt, notice }
        } else {
            PostStep::Done(
                match event {
                    PostEvent::Replied { status, text } => Ok((status, text)),
                    PostEvent::Failed { message, .. } => Err(Error::Transport(message)),
                },
            )
        }
    }
}

/// The event that decides a request, where `events[i]` is what sending it for the
/// time `i` comes to.
pub open spec fn deciding_event(p: PostView, events: Seq<PostEventView>) -> nat
    decreases p.max_retries - p.attempt,
{
    if p.repeats(events[0]) {
        1 + deciding_event(p.repeated(), events.drop_first())
    } else {
        0
    }
}

/// A request is sent at most once more than it may be repeated. It ends with the
/// first event that is not transient, or with the last that it may try.
pub proof fn retries_are_bounded(p: PostView, events: Seq<PostEventView>)
    requires
        p.attempt <= p.max_retries,
        events.len() > p.max_retries - p.attempt,
    ensures
        deciding_event(p, events) <= p.max_retries - p.attempt,
        !p.retry ==> deciding_event(p, events) == 0,
        forall|i: int| 0 <= i < deciding_event(p, events) ==> (#[trigger] events[i]).transient(),
        p.retry && deciding_event(p, events) < p.max_retries - p.attempt
            ==> !events[deciding_event(p, events) as int].transient(),
    decreases p.max_retries - p.attempt,
{
    if p.repeats(events[0]) {
        let rest = events.drop_first();
        retries_are_bounded(p.repeated(), rest);
        assert forall|i: int| 0 <= i < deciding_event(p, events) implies (
        #[trigger] events[i]).transient() by {
            if i > 0 {
                assert(events[i] == rest[i - 1]);
            }
        }
        assert(events[deciding_event(p, events) as int] == rest[deciding_event(
            p.repeated(),
            rest,
        ) as int]);
    }
}

/// The wait before the first retry, in nanoseconds. It doubles with every retry.
pub const FIRST_WAIT: u64 = 400_000_000;

/// The longest wait, in nanoseconds.
pub const MAX_WAIT: u64 = 20_000_000_000;

/// Waits are spread over this many milliseconds.
pub const JITTER_SPAN: usize = 250;

/// The wait before the given retry if nothing else is known, in nanoseconds: it
/// doubles from one retry to the next, from half the first wait at zero.
pub open spec fn base_wait(attempt: nat) -> nat {
    FIRST_WAIT as nat / 2 * pow2(attempt)
}

/// The wait before the given retry, in nanoseconds: at least what the service asks
/// for, spread by up to a quarter of a second, and never over the longest wait.
pub open spec fn wait(attempt: nat, retry_after: Option<u64>, seed: nat) -> nat {
    let asked = match retry_after {
        Some(n) => n as nat,
        None => 0,
    };
    let least = if asked > base_wait(attempt) {
        asked
    } else {
        base_wait(attempt)
    };
    let spread = least + seed % (JITTER_SPAN as nat) * 1_000_000;
    if spread > MAX_WAIT {
        MAX_WAIT as nat
    } else {
        spread
    }
}

proof fn lemma_base_wait(a: nat, b: nat)
    requires
        a <= b,
    ensures
        FIRST_WAIT / 2 <= base_wait(a) <= base_wait(b),
        base_wait(a + 1) == 2 * base_wait(a),
        base_wait(0) == FIRST_WAIT / 2,
{
    let half = FIRST_WAIT as nat / 2;
    lemma2_to64();
    lemma_pow2_pos(a);
    if a < b {
        lemma_pow2_strictly_increases(a, b);
    }
    lemma_pow2_unfold(a + 1);
    assert(half * pow2(a) <= half * pow2(b)) by (nonlinear_arith)
        requires
            pow2(a) <= pow2(b),
    ;
    assert(half <= half * pow2(a)) by (nonlinear_arith)
        requires
            pow2(a) > 0,
    ;
    assert(half * (2 * pow2(a)) == 2 * (half * pow2(a))) by (nonlinear_arith);
}

/// The wait before the given retry, counted from one, in nanoseconds. The service
/// may ask for `retry_after` nanoseconds; `seed` spreads the waits of different
/// requests.
pub fn backoff(attempt: u32, retry_after: Option<u64>, seed: usize) -> (r: u64)
    requires
        attempt <= i32::MAX,
    ensures
        r == wait(attempt as nat, retry_after, seed as nat),
{
    let mut base: u64 = FIRST_WAIT / 2;
    let mut i: u32 = 0;
    proof {
        lemma_base_wait(0, attempt as nat);
    }
    while i < attempt && base < MAX_WAIT
        invariant
            i <= attempt,
            base == base_wait(i as nat),
            base <= 2 * MAX_WAIT,
        decreases attempt - i,
    {
        proof {
            lemma_base_wait(i as nat, attempt as nat);
        }
        base = base * 2;
        i = i + 1;
    }
    proof {
        lemma_base_wait(i as nat, attempt as nat);
    }
    let asked: u64 = match retry_after {
        Some(n) => n,
        None => 0,
    };
    let least: u64 = if asked > base {
        asked
    } else {
        base
    };
    if least >= MAX_WAIT {
        return MAX_WAIT;
    }
    let spread: u64 = least + (seed % JITTER_SPAN) as u64 * 1_000_000;
    if spread > MAX_WAIT {
        MAX_WAIT
    } else {
        spread
    }
}

/// Where nothing else is known, the first retry waits the first wait, and each later
/// one twice the wait before it. A later retry waits no less than an earlier one, no
/// wait is over the longest, and none falls short of what the service asks for, up to
/// the longest.
pub proof fn waits_grow_to_the_longest(a: nat, b: nat, retry_after: Option<u64>, seed: nat)
    requires
        a <= b,
    ensures
        wait(a, retry_after, seed) <= wait(b, retry_after, seed) <= MAX_WAIT,
        retry_after matches Some(n) ==> wait(a, retry_after, seed) >= n || wait(
            a,
            retry_after,
            seed,
        ) == MAX_WAIT,
        wait(a, retry_after, seed) >= base_wait(a) || wait(a, retry_after, seed) == MAX_WAIT,
        base_wait(1) == FIRST_WAIT,
        base_wait(a + 1) == 2 * base_wait(a),
{
    lemma_base_wait(a, b);
    lemma_base_wait(0, 0);
}

/// Which requests are sent again, by the numbers: with retries on and some left, after a
/// reply with status 429 or any status from 500 to 599, and after no other. One more retry
/// is then counted, and nothing else changes.
pub proof fn statuses_that_are_sent_again(p: PostView, status: u16, text: Seq<char>)
    ensures
        ({
            let event = PostEventView::Replied { status, text };
            let again = p.retry && p.attempt < p.max_retries;
            &&& again && status == 429 ==> p.repeats(event)
            &&& again && 500 <= status <= 599 ==> p.repeats(event)
            &&& p.repeats(event) ==> again && (status == 429 || 500 <= status <= 599)
        }),
        p.repeated().attempt == p.attempt + 1,
        p.repeated().max_retries == p.max_retries,
        p.repeated().retry == p.retry,
{
}

/// A request that failed without a reply is sent again unless it cannot be meant
/// otherwise: not for a bad address, a request that cannot be put together, or a secure
/// connection that cannot be set up.
pub proof fn failures_that_are_sent_again(p: PostView, failure: Failure, message: Seq<char>)
    ensures
        ({
            let event = PostEventView::Failed { failure, message };
            let again = p.retry && p.attempt < p.max_retries;
            &&& failure is BadUri || failure is Http || failure is Tls ==> !p.repeats(event)
            &&& failure is Other ==> p.repeats(event) == again
        }),
{
}

/// A request that is not sent again comes to the status and the text of its reply, or to
/// an error of the transport with its message. Before a request is sent again, the user is
/// told the status of the reply, if there was one.
pub proof fn events_say_what_came(
    status: u16,
    text: Seq<char>,
    failure: Failure,
    message: Seq<char>,
)
    ensures
        ({
            let replied = PostEventView::Replied { status, text };
            let failed = PostEventView::Failed { failure, message };
            &&& replied.reply() == Ok::<(u16, Seq<char>), ErrorView>((status, text))
            &&& failed.reply() == Err::<(u16, Seq<char>), ErrorView>(
                ErrorView::Transport(message),
            )
            &&& replied.notice() == Some(
                "  ! jev: HTTP "@ + decimal(status as nat)
                    + ", backing off (further retries are counted silently; see footer)"@,
            )
            &&& failed.notice() is None
        }),
{
}

/// The waits in numbers. Where the service asks for nothing and the seed adds nothing, the
/// waits are 400 milliseconds before the first retry and twice the last wait before every
/// later one, up to 20 seconds. The service can ask for more. The seed adds a millisecond
/// for each of its units, up to 249, and no wait is longer than 20 seconds.
pub proof fn waits_in_numbers(attempt: nat, asked: u64, seed: nat)
    ensures
        wait(1, None, 0) == 400_000_000,
        wait(attempt + 1, None, 0) == (if 2 * wait(attempt, None, 0) < 20_000_000_000 {
            2 * wait(attempt, None, 0)
        } else {
            20_000_000_000
        }),
        ({
            let plain = wait(attempt, None, 0);
            let least = if asked > plain {
                asked as nat
            } else {
                plain
            };
            wait(attempt, Some(asked), 0) == (if least < 20_000_000_000 {
                least
            } else {
                20_000_000_000
            })
        }),
        seed < 250 ==> wait(attempt, None, seed) == (if wait(attempt, None, 0) + seed * 1_000_000
            < 20_000_000_000 {
            wait(attempt, None, 0) + seed * 1_000_000
        } else {
            20_000_000_000
        }),
        seed < 250 ==> wait(attempt, Some(asked), seed) == (if wait(attempt, Some(asked), 0) + seed
            * 1_000_000 < 20_000_000_000 {
            wait(attempt, Some(asked), 0) + seed * 1_000_000
        } else {
            20_000_000_000
        }),
        wait(attempt, None, seed + 250) == wait(attempt, None, seed),
        wait(attempt, Some(asked), seed + 250) == wait(attempt, Some(asked), seed),
{
    lemma_base_wait(0, 0);
    lemma_base_wait(attempt, attempt);
    assert((seed + 250) % 250 == seed % 250);
}

/// Events and steps are seen with all that they hold.
pub proof fn post_views_show_all(event: PostEvent, step: PostStep)
    ensures
        match event {
            PostEvent::Replied { status, text } => {
                &&& event@ matches PostEventView::Replied { status: s, text: t }
                &&& s == status
                &&& t == text@
            },
            PostEvent::Failed { failure, message } => {
                &&& event@ matches PostEventView::Failed { failure: f, message: m }
                &&& f == failure
                &&& m == message@
            },
        },
        match step {
            PostStep::Again { attempt, notice } => {
                &&& step@ matches PostStepView::Again { attempt: a, notice: told }
                &&& a == attempt
                &&& notice matches Some(n) ==> told == Some(n@)
                &&& notice is None ==> told is None
            },
            PostStep::Done(Ok((status, text))) => step@ == PostStepView::Done(Ok((status, text@))),
            PostStep::Done(Err(e)) => step@ == PostStepView::Done(Err(e@)),
        },
{
}

} // verus!
