use xmip_test_playground::round_trip::{
    arrived, carried, round_trip_with, scored, Exchange, Outcome, RoundTrip,
};

/// A transport that hands back what it was given, in memory.
struct Loopback;

impl RoundTrip for Loopback {
    fn transport(&self) -> String {
        "loopback".to_string()
    }

    fn refuses(&self, _payload: &[u8]) -> Option<String> {
        None
    }

    fn exchange(&self, payload: &[u8]) -> Exchange {
        Exchange::Returned(payload.to_vec())
    }
}

/// A transport that carries nothing above a ceiling, and garbles the rest.
struct Garbling {
    ceiling: usize,
}

impl RoundTrip for Garbling {
    fn transport(&self) -> String {
        "garbling".to_string()
    }

    fn refuses(&self, payload: &[u8]) -> Option<String> {
        (payload.len() > self.ceiling).then(|| format!("above {} bytes", self.ceiling))
    }

    fn exchange(&self, payload: &[u8]) -> Exchange {
        let mut back = payload.to_vec();
        back.push(b'!');
        Exchange::Returned(back)
    }
}

fn holds(_arrived: Vec<u8>) -> Outcome {
    Outcome::Delivered
}

#[test]
fn the_same_scenario_runs_over_tcp() {
    // The point of the RoundTrip adapter: one scenario, a different
    // transport underneath, no change here.
    let payload = b"the bytes contract holds over any bytes".to_vec();
    let (outcome, bytes) = round_trip_with(&Loopback, holds, &payload);
    assert_eq!(outcome, Outcome::Delivered);
    assert_eq!(bytes, payload.len() as u64);
    assert_eq!(Loopback.transport(), "loopback");
}

#[test]
fn what_comes_back_changed_fails_and_moves_nothing() {
    let garbling = Garbling { ceiling: 8 };
    let (outcome, bytes) = round_trip_with(&garbling, holds, b"short");
    assert_eq!(
        outcome,
        Outcome::Failed("what came back did not match what was sent".to_string())
    );
    assert_eq!(bytes, 0);
    assert_eq!(
        carried(&garbling, b"far too long"),
        Err(Outcome::OneSided("above 8 bytes".to_string()))
    );
    assert_eq!(garbling.transport(), "garbling");
}

#[test]
fn a_contract_that_does_not_hold_fails_the_round() {
    let (outcome, bytes) = round_trip_with(
        &Loopback,
        |_arrived: Vec<u8>| Outcome::Failed("contract not held: empty".to_string()),
        b"x",
    );
    assert_eq!(outcome, Outcome::Failed("contract not held: empty".to_string()));
    assert_eq!(bytes, 0);
}

#[test]
fn an_exchange_is_published_as_it_said() {
    assert_eq!(arrived(Exchange::Returned(b"ab".to_vec()), b"ab"), Ok(b"ab".to_vec()));
    assert_eq!(
        arrived(Exchange::OneSided("send only".to_string()), b"ab"),
        Err(Outcome::OneSided("send only".to_string()))
    );
    assert_eq!(
        arrived(Exchange::Failed("refused".to_string()), b"ab"),
        Err(Outcome::Failed("refused".to_string()))
    );
    assert_eq!(scored(Outcome::Delivered, 12), (Outcome::Delivered, 12));
    assert_eq!(
        scored(Outcome::Failed("x".to_string()), 12),
        (Outcome::Failed("x".to_string()), 0)
    );
}
