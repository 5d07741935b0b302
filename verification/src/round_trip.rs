//! The `RoundTrip` test: one round over one transport, judged.
//!
//! A scenario, not a protocol: it runs over any [`RoundTrip`] adapter, so the
//! transport is the variable and the scenario is the constant. Send the
//! payload, take what returned, check it matches, and have the contract
//! judged over it. What moved is counted only when the round was delivered.

use vstd::prelude::*;

verus! {

/// What a transport did with a payload it was handed.
#[derive(Clone, Debug, PartialEq, Eq)]
pub enum Exchange {
    /// It came back; these are the bytes that did.
    Returned(Vec<u8>),
    /// The transport carries one direction only, and says why.
    OneSided(String),
    /// The exchange failed, and says why.
    Failed(String),
}

/// How a round ended.
#[derive(Clone, Debug, PartialEq, Eq)]
pub enum Outcome {
    /// It arrived whole and the contract held over it.
    Delivered,
    /// Only one side could be judged, and why.
    OneSided(String),
    /// It did not arrive whole, or the contract did not hold, and why.
    Failed(String),
}

/// A transport a round can run over: the adapter a scenario is written
/// against, so that a new transport is a new adapter and not a new scenario.
pub trait RoundTrip {
    /// The transport's name: `tcp`, `udp`, `file`.
    fn transport(&self) -> String;

    /// Why this transport will not carry `payload`, where it declares it
    /// cannot: above its ceiling, or one direction only.
    fn refuses(&self, payload: &[u8]) -> Option<String>;

    /// `payload` sent through the transport, and what came of it.
    fn exchange(&self, payload: &[u8]) -> Exchange;
}

/// Whether two byte runs are the same bytes.
fn same_bytes(a: &[u8], b: &[u8]) -> (same: bool)
    ensures
        same == (a@ == b@),
{
    if a.len() != b.len() {
        return false;
    }
    let mut i: usize = 0;
    while i < a.len()
        invariant
            i <= a@.len() == b@.len(),
            forall|j: int| 0 <= j < i ==> a@[j] == b@[j],
        decreases a@.len() - i,
    {
        if a[i] != b[i] {
            return false;
        }
        i = i + 1;
    }
    assert(a@ =~= b@);
    true
}

/// An exchange as plain values.
pub enum ExchangeView {
    Returned(Seq<u8>),
    OneSided(Seq<char>),
    Failed(Seq<char>),
}

/// An outcome as plain values.
pub enum OutcomeView {
    Delivered,
    OneSided(Seq<char>),
    Failed(Seq<char>),
}

impl View for Exchange {
    type V = ExchangeView;

    open spec fn view(&self) -> ExchangeView {
        match self {
            Exchange::Returned(back) => ExchangeView::Returned(back@),
            Exchange::OneSided(why) => ExchangeView::OneSided(why@),
            Exchange::Failed(why) => ExchangeView::Failed(why@),
        }
    }
}

impl View for Outcome {
    type V = OutcomeView;

    open spec fn view(&self) -> OutcomeView {
        match self {
            Outcome::Delivered => OutcomeView::Delivered,
            Outcome::OneSided(why) => OutcomeView::OneSided(why@),
            Outcome::Failed(why) => OutcomeView::Failed(why@),
        }
    }
}

/// What an exchange of `payload` answers: the bytes when they came back
/// unchanged, else the outcome to publish.
pub open spec fn arrival(exchange: ExchangeView, payload: Seq<u8>) -> Result<Seq<u8>, OutcomeView> {
    match exchange {
        ExchangeView::Returned(back) => if back == payload {
            Ok(payload)
        } else {
            Err(OutcomeView::Failed("what came back did not match what was sent"@))
        },
        ExchangeView::OneSided(why) => Err(OutcomeView::OneSided(why)),
        ExchangeView::Failed(why) => Err(OutcomeView::Failed(why)),
    }
}

/// A transport's half of a round as plain values.
pub open spec fn carried_view(result: Result<Vec<u8>, Outcome>) -> Result<Seq<u8>, OutcomeView> {
    match result {
        Ok(bytes) => Ok(bytes@),
        Err(outcome) => Err(outcome@),
    }
}

/// The outcome to publish for an exchange of `payload`, or the bytes that
/// came back whole: a changed return fails the round, a one-sided or failed
/// exchange is published as it said.
pub fn arrived(exchange: Exchange, payload: &[u8]) -> (result: Result<Vec<u8>, Outcome>)
    ensures
        carried_view(result) == arrival(exchange@, payload@),
{
    match exchange {
        Exchange::Returned(back) => if same_bytes(back.as_slice(), payload) {
            Ok(back)
        } else {
            Err(Outcome::Failed("what came back did not match what was sent".to_owned()))
        },
        Exchange::OneSided(why) => Err(Outcome::OneSided(why)),
        Exchange::Failed(why) => Err(Outcome::Failed(why)),
    }
}

/// The transport's half of a round once the transport has answered: what
/// [`carried`] does with a refusal, or else with the exchange.
pub open spec fn carrying(refused: Option<Seq<char>>, exchange: ExchangeView, payload: Seq<u8>) -> Result<
    Seq<u8>,
    OutcomeView,
> {
    match refused {
        Some(why) => Err(OutcomeView::OneSided(why)),
        None => arrival(exchange, payload),
    }
}

/// The transport's half of a round: `payload` through `transport`, and
/// what arrived when it arrived whole. A node runs this half alone and
/// leaves the contract to the node that processes.
///
/// A transport that declares it cannot carry the payload is published as
/// one-sided without an exchange; otherwise the exchange decides, as
/// [`arrived`] reads it. Whatever the transport does, bytes are answered
/// only when they are the payload.
pub fn carried<T: RoundTrip>(transport: &T, payload: &[u8]) -> (result: Result<Vec<u8>, Outcome>)
    ensures
        exists|refused: Option<Seq<char>>, exchange: ExchangeView|
            carried_view(result) == #[trigger] carrying(refused, exchange, payload@),
        match result {
            Ok(back) => back@ == payload@,
            Err(outcome) => !(outcome is Delivered),
        },
{
    match transport.refuses(payload) {
        Some(why) => {
            let ghost refused = Some(why@);
            let ghost unasked = ExchangeView::Failed(why@);
            let result = Err(Outcome::OneSided(why));
            assert(carried_view(result) == carrying(refused, unasked, payload@));
            result
        },
        None => {
            let exchange = transport.exchange(payload);
            let ghost answered = exchange@;
            let result = arrived(exchange, payload);
            assert(carried_view(result) == carrying(None, answered, payload@));
            result
        },
    }
}

/// A round's outcome with the bytes it moved: the payload's length when it
/// was delivered, nothing otherwise.
pub fn scored(outcome: Outcome, sent: usize) -> (judged: (Outcome, u64))
    ensures
        judged.0 == outcome,
        judged.1 == (if outcome is Delivered { sent as u64 } else { 0u64 }),
{
    let bytes: u64 = match outcome {
        Outcome::Delivered => sent as u64,
        _ => 0,
    };
    (outcome, bytes)
}

/// What a round over a transport that answered as `refused` and `exchange`
/// came to, once `held` has judged what arrived whole: the transport's
/// outcome when nothing did, else `held`'s verdict over the payload.
pub open spec fn judged_round<H: Fn(Vec<u8>) -> Outcome>(
    refused: Option<Seq<char>>,
    exchange: ExchangeView,
    payload: Seq<u8>,
    held: H,
    outcome: Outcome,
) -> bool {
    match carrying(refused, exchange, payload) {
        Ok(bytes) => exists|arrived: Vec<u8>|
            arrived@ == bytes && #[trigger] held.ensures((arrived,), outcome),
        Err(said) => outcome@ == said,
    }
}

/// One round with a chosen probe, judged: what came back must be what went
/// out, and `held` — the contract run over what arrived — must say it was
/// delivered. The bytes that moved are counted only for a delivered round.
pub fn round_trip_with<T: RoundTrip, H: Fn(Vec<u8>) -> Outcome>(
    transport: &T,
    held: H,
    payload: &[u8],
) -> (judged: (Outcome, u64))
    requires
        forall|arrived: Vec<u8>| #[trigger] held.requires((arrived,)),
    ensures
        judged.1 == (if judged.0 is Delivered { payload@.len() as u64 } else { 0u64 }),
        exists|refused: Option<Seq<char>>, exchange: ExchangeView|
            #[trigger] judged_round(refused, exchange, payload@, held, judged.0),
        judged.0 is Delivered ==> exists|arrived: Vec<u8>|
            arrived@ == payload@ && #[trigger] held.ensures((arrived,), judged.0),
{
    let carried_back = carried(transport, payload);
    let ghost refused = choose|refused: Option<Seq<char>>, exchange: ExchangeView|
        carried_view(carried_back) == #[trigger] carrying(refused, exchange, payload@);
    let outcome = match carried_back {
        Ok(back) => {
            let ghost arrived = back;
            let outcome = held(back);
            assert(arrived@ == payload@ && held.ensures((arrived,), outcome));
            assert(judged_round(refused.0, refused.1, payload@, held, outcome));
            outcome
        },
        Err(outcome) => {
            assert(judged_round(refused.0, refused.1, payload@, held, outcome));
            outcome
        },
    };
    scored(outcome, payload.len())
}


/// A round arrives whole only when what came back is the payload byte for
/// byte: anything else that came back, of whatever length, fails the round
/// saying so, and what arrives is always the payload itself.
pub proof fn lemma_only_the_payload_arrives(back: Seq<u8>, payload: Seq<u8>, exchange: ExchangeView)
    ensures
        arrival(ExchangeView::Returned(back), payload) is Ok <==> back == payload,
        back != payload ==> arrival(ExchangeView::Returned(back), payload) == Err::<
            Seq<u8>,
            OutcomeView,
        >(OutcomeView::Failed("what came back did not match what was sent"@)),
        arrival(exchange, payload) is Ok ==> exchange == ExchangeView::Returned(payload)
            && arrival(exchange, payload) == Ok::<Seq<u8>, OutcomeView>(payload),
{
}

} // verus!
