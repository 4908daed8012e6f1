//! One exchange with the text-generation service: which shape of answer is
//! expected, how a malformed answer is retried, and how the exchange ends.
//!
//! The caller sends the request and hands every reply to
//! [`QueryLoop::on_reply`]; it sleeps and sends again where the verdict says so.

use crate::text::texts;
use vstd::prelude::*;

verus! {

/// The number of times a request is sent again after a malformed answer.
pub const MAX_RETRIES: u32 = 10;

/// The shortest pause before a request is sent again, in seconds.
pub const MIN_WAIT_SECONDS: u64 = 5;

/// The number of different pauses: they range from `MIN_WAIT_SECONDS` up to,
/// but not including, `MIN_WAIT_SECONDS + WAIT_SPREAD_SECONDS`.
pub const WAIT_SPREAD_SECONDS: u64 = 15;

/// Why an exchange produced nothing.
#[derive(Clone, Copy, Debug, PartialEq, Eq, Structural)]
pub enum QueryError {
    /// No answer could be read as a list of statements within the retry budget.
    ParseExhausted,
    /// The service could not be reached or did not answer.
    RequestFailed,
}

/// The shape in which the answer is expected.
#[derive(Clone, Copy, Debug, PartialEq, Eq, Structural)]
pub enum Shape {
    /// A JSON array of strings; anything else is asked for again.
    StatementList,
    /// Any text; it is taken as it comes.
    FreeText,
}

/// What to do after a reply.
pub enum Verdict {
    /// The exchange is over: the statements that the answer listed.
    Statements(Vec<String>),
    /// The exchange is over: the answer as it came.
    Text(String),
    /// Wait for so many seconds, then send the same request again.
    Retry { wait_seconds: u64 },
    /// The exchange is over and produced nothing.
    Failed(QueryError),
}

/// Model of a [`Verdict`].
pub enum VerdictView {
    Statements(Seq<Seq<char>>),
    Text(Seq<char>),
    Retry { wait_seconds: u64 },
    Failed(QueryError),
}

impl View for Verdict {
    type V = VerdictView;

    open spec fn view(&self) -> VerdictView {
        match self {
            Verdict::Statements(list) => VerdictView::Statements(texts(list@)),
            Verdict::Text(text) => VerdictView::Text(text@),
            Verdict::Retry { wait_seconds } => VerdictView::Retry { wait_seconds: *wait_seconds },
            Verdict::Failed(error) => VerdictView::Failed(*error),
        }
    }
}

/// The error with which `serde_json` rejects a text.
#[verifier::external_type_specification]
#[verifier::external_body]
pub struct ExJsonError(serde_json::Error);

/// The strings that `serde_json::from_str::<Vec<String>>` reads from a text,
/// `None` where it rejects the text.
pub uninterp spec fn json_statements(text: Seq<char>) -> Option<Seq<Seq<char>>>;

/// Calls `serde_json::from_str::<Vec<String>>`. What it accepts and what it
/// then returns depends on the text alone; that result is named
/// [`json_statements`], and nothing more is claimed of it.
#[verifier::external_body]
fn parse_statements(text: &str) -> (out: Result<Vec<String>, serde_json::Error>)
    ensures
        match out {
            Ok(list) => json_statements(text@) == Some(texts(list@)),
            Err(_) => json_statements(text@) is None,
        },
{
    serde_json::from_str::<Vec<String>>(text)
}

/// Calls `rand::random::<u64>()`. Any value may come back, so nothing is
/// claimed of it.
#[verifier::external_body]
fn draw() -> u64 {
    rand::random::<u64>()
}

/// The statements that an answer lists, `None` where the answer is no JSON
/// array of strings.
pub fn read_statements(text: &str) -> (out: Option<Vec<String>>)
    ensures
        match out {
            Some(list) => json_statements(text@) == Some(texts(list@)),
            None => json_statements(text@) is None,
        },
{
    match parse_statements(text) {
        Ok(list) => Some(list),
        Err(_) => None,
    }
}

/// The pause that a random draw stands for.
pub open spec fn backoff(draw: u64) -> u64 {
    (draw % WAIT_SPREAD_SECONDS + MIN_WAIT_SECONDS) as u64
}

/// The pause before the next attempt, in seconds: at least 5 and less than 20,
/// each with the same share of the draws.
pub fn backoff_seconds(draw: u64) -> (wait: u64)
    ensures
        wait == backoff(draw),
        MIN_WAIT_SECONDS <= wait < MIN_WAIT_SECONDS + WAIT_SPREAD_SECONDS,
{
    draw % WAIT_SPREAD_SECONDS + MIN_WAIT_SECONDS
}

/// The text of a reply, `None` for a reply that never came.
pub open spec fn reply_text(reply: Option<String>) -> Option<Seq<char>> {
    match reply {
        Some(text) => Some(text@),
        None => None,
    }
}

/// The verdict on a reply where it does not hang on chance; `None` where the
/// request is to be sent again after a random pause.
///
/// A reply that never came fails the exchange. Free text is taken as it is. A
/// readable list ends the exchange with its statements. A malformed list is
/// asked for again until `MAX_RETRIES` retries were made, and fails after that.
pub open spec fn fixed_verdict(shape: Shape, retries: nat, reply: Option<Seq<char>>) -> Option<
    VerdictView,
> {
    match reply {
        None => Some(VerdictView::Failed(QueryError::RequestFailed)),
        Some(text) => match shape {
            Shape::FreeText => Some(VerdictView::Text(text)),
            Shape::StatementList => match json_statements(text) {
                Some(list) => Some(VerdictView::Statements(list)),
                None => if retries >= MAX_RETRIES {
                    Some(VerdictView::Failed(QueryError::ParseExhausted))
                } else {
                    None
                },
            },
        },
    }
}

/// The state of one exchange: the expected shape and the retries made so far.
pub struct QueryLoop {
    shape: Shape,
    retries: u32,
}

impl QueryLoop {
    /// No more retries are ever made than the budget allows.
    #[verifier::type_invariant]
    spec fn within_budget(self) -> bool {
        self.retries <= MAX_RETRIES
    }

    /// The shape in which the answer is expected.
    pub closed spec fn shape(&self) -> Shape {
        self.shape
    }

    /// The number of retries made so far.
    pub closed spec fn retries(&self) -> nat {
        self.retries as nat
    }

    /// An exchange for which no request went out again yet.
    pub fn new(shape: Shape) -> (state: QueryLoop)
        ensures
            state.shape() == shape,
            state.retries() == 0,
    {
        QueryLoop { shape, retries: 0 }
    }

    /// The number of retries made so far, never more than `MAX_RETRIES`.
    pub fn attempts_repeated(&self) -> (count: u32)
        ensures
            count == self.retries(),
            count <= MAX_RETRIES,
    {
        proof {
            use_type_invariant(self);
        }
        self.retries
    }

    /// The verdict on an answer that could not be read as a list of
    /// statements, `draw` being the random number that sets the pause.
    pub fn on_malformed(&mut self, draw: u64) -> (verdict: Verdict)
        ensures
            final(self).shape() == old(self).shape(),
            old(self).retries() >= MAX_RETRIES ==> verdict@ == VerdictView::Failed(
                QueryError::ParseExhausted,
            ) && final(self).retries() == old(self).retries(),
            old(self).retries() < MAX_RETRIES ==> verdict@ == (VerdictView::Retry {
                wait_seconds: backoff(draw),
            }) && final(self).retries() == old(self).retries() + 1,
    {
        proof {
            use_type_invariant(&*self);
        }
        if self.retries >= MAX_RETRIES {
            Verdict::Failed(QueryError::ParseExhausted)
        } else {
            self.retries = self.retries + 1;
            Verdict::Retry { wait_seconds: backoff_seconds(draw) }
        }
    }

    /// The verdict on a reply: its text, or `None` where the service could not
    /// be reached. Where the request is to be sent again, the pause is drawn
    /// at random between 5 and 20 seconds.
    pub fn on_reply(&mut self, reply: Option<String>) -> (verdict: Verdict)
        ensures
            final(self).shape() == old(self).shape(),
            match fixed_verdict(old(self).shape(), old(self).retries(), reply_text(reply)) {
                Some(fixed) => verdict@ == fixed && final(self).retries() == old(self).retries(),
                None => {
                    &&& verdict@ matches VerdictView::Retry { wait_seconds }
                    &&& MIN_WAIT_SECONDS <= wait_seconds < MIN_WAIT_SECONDS + WAIT_SPREAD_SECONDS
                    &&& final(self).retries() == old(self).retries() + 1
                },
            },
    {
        proof {
            use_type_invariant(&*self);
        }
        match reply {
            None => Verdict::Failed(QueryError::RequestFailed),
            Some(text) => match self.shape {
                Shape::FreeText => Verdict::Text(text),
                Shape::StatementList => match read_statements(text.as_str()) {
                    Some(list) => Verdict::Statements(list),
                    None => {
                        if self.retries >= MAX_RETRIES {
                            Verdict::Failed(QueryError::ParseExhausted)
                        } else {
                            let chance = draw();
                            self.on_malformed(chance)
                        }
                    },
                },
            },
        }
    }
}

} // verus!
