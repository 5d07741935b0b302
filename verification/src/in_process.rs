//! The scenarios a roll runs in its own process, and which of them a round
//! ticks. Where the nodes declare stages of the message path, `RoundTrip` is
//! theirs, between processes, and is not also run here.

use vstd::prelude::*;

use crate::scenario::{drives, drives_spec, scenario_names, scenarios, ROUND_TRIP};
use crate::text::{spelled, string_views};

verus! {

/// Whether a round in the roll's own process ticks the scenario `name`:
/// it was chosen, and it is not `RoundTrip` where the nodes run that.
pub open spec fn ticks_here(name: Seq<char>, chosen: Seq<Seq<char>>, relayed: bool) -> bool {
    drives_spec(chosen, name) && !(relayed && name == "round-trip"@)
}

/// The scenarios a round ticks in the roll's own process, in the order the
/// board lists them.
pub open spec fn due_here(chosen: Seq<Seq<char>>, relayed: bool) -> Seq<Seq<char>> {
    scenario_names().filter(|name: Seq<char>| ticks_here(name, chosen, relayed))
}

/// Every scenario a roll may run itself, and which of them it was told to.
#[derive(Clone, Debug)]
pub struct InProcess {
    chosen: Vec<String>,
    relayed: bool,
}

impl View for InProcess {
    type V = (Seq<Seq<char>>, bool);

    closed spec fn view(&self) -> (Seq<Seq<char>>, bool) {
        (string_views(self.chosen@), self.relayed)
    }
}

impl InProcess {
    /// The scenarios `chosen` names (empty is every one); `relayed` says the
    /// nodes run `RoundTrip`.
    pub fn new(chosen: Vec<String>, relayed: bool) -> (in_process: Self)
        ensures
            in_process@ == (string_views(chosen@), relayed),
    {
        InProcess { chosen, relayed }
    }

    /// The scenarios one round ticks here, in the order the board lists
    /// them: every chosen one, `RoundTrip` excepted where the nodes run it.
    pub fn due(&self) -> (due: Vec<String>)
        ensures
            string_views(due@) == due_here(self@.0, self@.1),
    {
        let all = scenarios();
        let ghost names = scenario_names();
        let ghost chosen = string_views(self.chosen@);
        let ghost pick = |name: Seq<char>| ticks_here(name, chosen, self.relayed);
        let mut due: Vec<String> = Vec::new();
        let mut i: usize = 0;
        assert(names.take(0).filter(pick) =~= Seq::<Seq<char>>::empty());
        while i < all.len()
            invariant
                i <= all@.len(),
                string_views(all@) == names,
                names == scenario_names(),
                chosen == string_views(self.chosen@),
                pick == (|name: Seq<char>| ticks_here(name, chosen, self.relayed)),
                string_views(due@) == names.take(i as int).filter(pick),
            decreases all@.len() - i,
        {
            let name = all[i].as_str();
            proof {
                assert(names.take(i as int + 1).drop_last() == names.take(i as int));
                assert(names.take(i as int + 1).last() == all@[i as int]@);
                reveal(Seq::filter);
            }
            if drives(&self.chosen, name) && !(self.relayed && spelled(name, ROUND_TRIP)) {
                proof {
                    assert(string_views(due@.push(all@[i as int])) == string_views(due@).push(
                        all@[i as int]@,
                    ));
                }
                due.push(all[i].clone());
            }
            i = i + 1;
        }
        assert(names.take(all@.len() as int) == names);
        due
    }
}


/// Where the nodes run `RoundTrip` it is never due in the roll's own
/// process, whatever was chosen; otherwise it is due exactly when it was
/// chosen. Every scenario due was chosen, and is a scenario.
pub proof fn lemma_round_trip_runs_in_one_place(chosen: Seq<Seq<char>>, relayed: bool)
    ensures
        relayed ==> !due_here(chosen, relayed).contains("round-trip"@),
        !relayed ==> (due_here(chosen, relayed).contains("round-trip"@) <==> drives_spec(
            chosen,
            "round-trip"@,
        )),
        forall|name: Seq<char>|
            due_here(chosen, relayed).contains(name) ==> drives_spec(chosen, name)
                && scenario_names().contains(name),
{
    let pick = |name: Seq<char>| ticks_here(name, chosen, relayed);
    let names = scenario_names();
    assert forall|name: Seq<char>| due_here(chosen, relayed).contains(name) implies pick(name)
        && names.contains(name) by {
        let k = choose|k: int| 0 <= k < names.filter(pick).len() && names.filter(pick)[k] == name;
        names.lemma_filter_pred(pick, k);
        names.lemma_filter_contains_rev(pick, name);
    }
    if !relayed && drives_spec(chosen, "round-trip"@) {
        assert(names[0] == "round-trip"@);
        names.lemma_filter_contains(pick, 0);
    }
}

} // verus!
