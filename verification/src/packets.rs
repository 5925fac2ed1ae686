//! A core over a probe: what the calls of the one are in the session of the
//! other.

use vstd::prelude::*;

use crate::protocol;
use crate::protocol::CMD_FLASH_READ;
use crate::protocol::CMD_SWIRE_READ;
use crate::protocol::CMD_SWIRE_WRITE;
use crate::session;
use crate::tc32::calls;
use crate::tc32::calls::SwsCall;
use crate::tc32::TlsrSwsDebug;
use crate::telink_sws::TelinkSws;
use crate::transport::Entry;
use crate::transport::Io;

verus! {

/// Whether `entry` is the step that carries `call` out: the command that it
/// sends, and how the reply makes up what the call ends in.
pub open spec fn carries(entry: Entry, call: SwsCall) -> bool {
    match call {
        SwsCall::ReadMemory { address, held, data, outcome } => session::fills(
            CMD_SWIRE_READ,
            address,
            seq![entry],
            held,
            outcome,
            data,
        ),
        SwsCall::ReadFlash { address, held, data, outcome } => session::fills(
            CMD_FLASH_READ,
            address,
            seq![entry],
            held,
            outcome,
            data,
        ),
        SwsCall::WriteMemory { address, data, outcome } => protocol::performs(
            protocol::write_request(CMD_SWIRE_WRITE, address as nat, data),
            6,
            seq![entry],
            outcome,
        ),
        SwsCall::Delay { millis } => entry == (Entry::Delayed { millis }),
        _ => false,
    }
}

/// Whether none of `calls` changes flash.
pub open spec fn spares_flash(calls: Seq<SwsCall>) -> bool {
    forall|i: int|
        0 <= i < calls.len() ==> !((#[trigger] calls[i]) is WriteFlash) && !(calls[i] is EraseFlash)
}

/// The calls that a core makes on a probe are the steps of the probe's session,
/// one for one and in order, and nothing else of the probe changes.
pub proof fn law_calls_are_steps<T: Io>(
    before: TelinkSws<T>,
    made: Seq<SwsCall>,
    after: TelinkSws<T>,
)
    requires
        calls::leads(before, made, after),
        spares_flash(made),
    ensures
        session::only_session(before@, after@),
        session::since(before@, after@).len() == made.len(),
        forall|i: int|
            0 <= i < made.len() ==> carries(
                session::since(before@, after@)[i],
                #[trigger] made[i],
            ),
{
    reveal(calls::leads);
    let states = choose|states: Seq<TelinkSws<T>>| #[trigger]
        calls::passes(states, made) && states[0] == before && states.last() == after;
    lemma_steps(states, made);
}

proof fn lemma_steps<T: Io>(states: Seq<TelinkSws<T>>, made: Seq<SwsCall>)
    requires
        calls::passes(states, made),
        spares_flash(made),
    ensures
        ({
            let steps = session::since(states[0]@, states.last()@);
            &&& session::only_session(states[0]@, states.last()@)
            &&& steps.len() == made.len()
            &&& forall|i: int| 0 <= i < made.len() ==> carries(steps[i], #[trigger] made[i])
        }),
    decreases made.len(),
{
    let first = states[0]@;
    let last = states.last()@;
    if made.len() == 0 {
        session::lemma_stayed(first, last);
    } else {
        let k = made.len() - 1;
        let front = made.drop_last();
        let call = made[k];
        let middle = states[k]@;
        let steps = session::since(first, middle);
        let step = session::since(middle, last);
        assert forall|i: int| 0 <= i < k implies TelinkSws::<T>::takes(
            states.drop_last()[i],
            #[trigger] front[i],
            states.drop_last()[i + 1],
        ) by {
            assert(TelinkSws::<T>::takes(states[i], made[i], states[i + 1]));
        }
        assert forall|i: int| 0 <= i < k implies !((#[trigger] front[i]) is WriteFlash) && !(
        front[i] is EraseFlash) by {
            assert(front[i] == made[i]);
        }
        lemma_steps(states.drop_last(), front);
        assert(TelinkSws::<T>::takes(states[k], made[k], states[k + 1]));
        assert(step =~= seq![step[0]]);
        session::lemma_went_on(first, middle, last);
        assert forall|i: int| 0 <= i < made.len() implies carries(
            (steps + step)[i],
            #[trigger] made[i],
        ) by {
            if i < k {
                assert(carries(steps[i], front[i]));
            }
        }
    }
}

} // verus!
