//! The way from a TC32 core to the SWS operations.

use vstd::prelude::*;

use crate::error::DebugProbeError;
use crate::tc32::calls;
use crate::tc32::calls::Reached;
use crate::tc32::calls::SwsCall;
use crate::tc32::TlsrSwsDebug;

verus! {

/// The record of the calls made on SWS operations. Nothing outside this file
/// can add to it.
pub struct Record {
    calls: Ghost<Seq<SwsCall>>,
}

impl View for Record {
    type V = Seq<SwsCall>;

    closed spec fn view(&self) -> Seq<SwsCall> {
        self.calls@
    }
}

/// Reaches the memory of a TC32 core. The methods below put every call that
/// they make on record, and the contracts of all others say that the calls on
/// record are all that happened to `sws`.
pub struct Tc32CommunicationInterface<'probe, S: TlsrSwsDebug> {
    pub sws: &'probe mut S,
    pub record: Record,
}

impl<'probe, S: TlsrSwsDebug> View for Tc32CommunicationInterface<'probe, S> {
    type V = Reached<S>;

    open spec fn view(&self) -> Reached<S> {
        Reached { sws: *self.sws, calls: self.record@ }
    }
}

impl<'probe, S: TlsrSwsDebug> Tc32CommunicationInterface<'probe, S> {
    /// An interface that uses `sws`.
    pub fn new(sws: &'probe mut S) -> (interface: Self)
        ensures
            *final(interface.sws) == *final(sws),
            interface@ == (Reached { sws: *old(sws), calls: Seq::<SwsCall>::empty() }),
    {
        Tc32CommunicationInterface { sws, record: Record { calls: Ghost(Seq::empty()) } }
    }

    /// Reads register-mapped memory.
    pub fn read_direct(&mut self, address: u32, data: &mut [u8]) -> (outcome: Result<
        (),
        DebugProbeError,
    >)
        requires
            old(data)@.len() <= isize::MAX,
        ensures
            *final(final(self).sws) == *final(old(self).sws),
            final(data)@.len() == old(data)@.len(),
            calls::called_on(old(self)@, final(self)@),
            calls::calls_since(old(self)@, final(self)@) == seq![
                SwsCall::ReadMemory { address, held: old(data)@, data: final(data)@, outcome },
            ],
            exists|sws: &mut S, buf: &mut [u8]|
                {
                    &&& *sws == old(self)@.sws
                    &&& *final(sws) == final(self)@.sws
                    &&& buf@ == old(data)@
                    &&& final(buf)@ == final(data)@
                    &&& #[trigger] call_ensures(S::read_sws_memory, (sws, address, buf), outcome)
                },
    {
        let ghost first = self@;
        let ghost held = data@;
        let outcome = self.sws.read_sws_memory(address, data);
        proof {
            let call = SwsCall::ReadMemory { address, held, data: data@, outcome };
            self.record.calls@ = self.record.calls@.push(call);
            calls::lemma_one_call(first, self@, call);
        }
        outcome
    }

    /// Reads flash.
    pub fn read_flash(&mut self, address: u32, data: &mut [u8]) -> (outcome: Result<
        (),
        DebugProbeError,
    >)
        requires
            old(data)@.len() <= isize::MAX,
        ensures
            *final(final(self).sws) == *final(old(self).sws),
            final(data)@.len() == old(data)@.len(),
            calls::called_on(old(self)@, final(self)@),
            calls::calls_since(old(self)@, final(self)@) == seq![
                SwsCall::ReadFlash { address, held: old(data)@, data: final(data)@, outcome },
            ],
            exists|sws: &mut S, buf: &mut [u8]|
                {
                    &&& *sws == old(self)@.sws
                    &&& *final(sws) == final(self)@.sws
                    &&& buf@ == old(data)@
                    &&& final(buf)@ == final(data)@
                    &&& #[trigger] call_ensures(S::read_sws_flash, (sws, address, buf), outcome)
                },
    {
        let ghost first = self@;
        let ghost held = data@;
        let outcome = self.sws.read_sws_flash(address, data);
        proof {
            let call = SwsCall::ReadFlash { address, held, data: data@, outcome };
            self.record.calls@ = self.record.calls@.push(call);
            calls::lemma_one_call(first, self@, call);
        }
        outcome
    }

    /// Writes register-mapped memory.
    pub fn write_direct(&mut self, address: u32, data: &[u8]) -> (outcome: Result<
        (),
        DebugProbeError,
    >)
        ensures
            *final(final(self).sws) == *final(old(self).sws),
            calls::called_on(old(self)@, final(self)@),
            calls::calls_since(old(self)@, final(self)@) == seq![
                SwsCall::WriteMemory { address, data: data@, outcome },
            ],
            exists|sws: &mut S|
                {
                    &&& *sws == old(self)@.sws
                    &&& *final(sws) == final(self)@.sws
                    &&& #[trigger] call_ensures(S::write_sws_memory, (sws, address, data), outcome)
                },
    {
        let ghost first = self@;
        let outcome = self.sws.write_sws_memory(address, data);
        proof {
            let call = SwsCall::WriteMemory { address, data: data@, outcome };
            self.record.calls@ = self.record.calls@.push(call);
            calls::lemma_one_call(first, self@, call);
        }
        outcome
    }

    /// Waits for `millis` milliseconds.
    pub fn delay(&mut self, millis: u64)
        ensures
            *final(final(self).sws) == *final(old(self).sws),
            calls::called_on(old(self)@, final(self)@),
            calls::calls_since(old(self)@, final(self)@) == seq![SwsCall::Delay { millis }],
            exists|sws: &mut S|
                {
                    &&& *sws == old(self)@.sws
                    &&& *final(sws) == final(self)@.sws
                    &&& #[trigger] call_ensures(S::delay_ms, (sws, millis), ())
                },
    {
        let ghost first = self@;
        self.sws.delay_ms(millis);
        proof {
            let call = SwsCall::Delay { millis };
            self.record.calls@ = self.record.calls@.push(call);
            calls::lemma_one_call(first, self@, call);
        }
    }
}

} // verus!
