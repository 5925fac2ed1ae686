//! A transport whose calls are kept on record.

use vstd::prelude::*;

use crate::error::IoError;
use crate::transport;
use crate::transport::Io;
use crate::transport::IoEvent;

verus! {

/// A transport and the record of every call made on it. There is no way to the
/// transport but through the methods below. Each makes just the call that it
/// puts on record: its contract says that this call took the transport from
/// what it was to what it is.
pub struct Link<T: Io> {
    io: T,
    events: Ghost<Seq<IoEvent>>,
}

/// What a read brought, as it is put on record.
pub open spec fn read_view(outcome: Result<Vec<u8>, IoError>) -> Result<Seq<u8>, IoError> {
    match outcome {
        Ok(data) => Ok(data@),
        Err(error) => Err(error),
    }
}

impl<T: Io> Link<T> {
    /// The transport.
    pub closed spec fn transport(&self) -> T {
        self.io
    }

    /// Every call made so far.
    pub closed spec fn events(&self) -> Seq<IoEvent> {
        self.events@
    }

    /// A link over `io`, on which no call has been made yet.
    pub fn new(io: T) -> (link: Self)
        ensures
            link.transport() == io,
            link.events() == Seq::<IoEvent>::empty(),
    {
        Link { io, events: Ghost(Seq::empty()) }
    }

    /// The transport.
    pub fn io(&self) -> (io: &T)
        ensures
            *io == self.transport(),
    {
        &self.io
    }

    /// One read for at most `want` bytes. Bytes beyond those asked for do not
    /// count.
    pub fn read(&mut self, want: usize) -> (outcome: Result<Vec<u8>, IoError>)
        ensures
            final(self).events() == old(self).events().push(
                IoEvent::Read { max: want as nat, outcome: read_view(outcome) },
            ),
            transport::moves(
                old(self).transport(),
                final(self).events().last(),
                final(self).transport(),
            ),
            outcome matches Ok(data) ==> data@.len() <= want,
            exists|io: &mut T, buf: &mut [u8], count: Result<usize, IoError>|
                {
                    &&& *io == old(self).transport()
                    &&& *final(io) == final(self).transport()
                    &&& buf@ == Seq::new(want as nat, |i: int| 0u8)
                    &&& #[trigger] call_ensures(T::read, (io, buf), count)
                    &&& read_view(outcome) == transport::brought(final(buf)@, want as nat, count)
                },
    {
        let mut data: Vec<u8> = vec![0u8; want];
        assert(data@ =~= Seq::new(want as nat, |i: int| 0u8));
        let count = self.io.read(data.as_mut_slice());
        let ghost filled = data@;
        let outcome = match count {
            Ok(read) => {
                data.truncate(if read < want { read } else { want });
                assert(data@ =~= transport::first(
                    transport::first(filled, want as nat),
                    read as nat,
                ));
                Ok(data)
            },
            Err(error) => Err(error),
        };
        proof {
            let event = IoEvent::Read { max: want as nat, outcome: read_view(outcome) };
            self.events@ = self.events@.push(event);
        }
        outcome
    }

    /// Writes all of `data`.
    pub fn write_all(&mut self, data: &[u8]) -> (outcome: Result<(), IoError>)
        ensures
            final(self).events() == old(self).events().push(
                IoEvent::Write { data: data@, outcome },
            ),
            transport::moves(
                old(self).transport(),
                final(self).events().last(),
                final(self).transport(),
            ),
            exists|io: &mut T|
                {
                    &&& *io == old(self).transport()
                    &&& *final(io) == final(self).transport()
                    &&& #[trigger] call_ensures(T::write_all, (io, data), outcome)
                },
    {
        let outcome = self.io.write_all(data);
        proof {
            self.events@ = self.events@.push(IoEvent::Write { data: data@, outcome });
        }
        outcome
    }

    /// Pushes out what was written.
    pub fn flush(&mut self) -> (outcome: Result<(), IoError>)
        ensures
            final(self).events() == old(self).events().push(IoEvent::Flush { outcome }),
            transport::moves(
                old(self).transport(),
                final(self).events().last(),
                final(self).transport(),
            ),
            exists|io: &mut T|
                {
                    &&& *io == old(self).transport()
                    &&& *final(io) == final(self).transport()
                    &&& #[trigger] call_ensures(T::flush, (io,), outcome)
                },
    {
        let outcome = self.io.flush();
        proof {
            self.events@ = self.events@.push(IoEvent::Flush { outcome });
        }
        outcome
    }

    /// Lets the transport come to rest.
    pub fn settle(&mut self) -> (outcome: Result<(), IoError>)
        ensures
            final(self).events() == old(self).events().push(IoEvent::Settle { outcome }),
            transport::moves(
                old(self).transport(),
                final(self).events().last(),
                final(self).transport(),
            ),
            exists|io: &mut T|
                {
                    &&& *io == old(self).transport()
                    &&& *final(io) == final(self).transport()
                    &&& #[trigger] call_ensures(T::settle_after_open, (io,), outcome)
                },
    {
        let outcome = self.io.settle_after_open();
        proof {
            self.events@ = self.events@.push(IoEvent::Settle { outcome });
        }
        outcome
    }

    /// Drops pending input.
    pub fn discard(&mut self) -> (outcome: Result<usize, IoError>)
        ensures
            final(self).events() == old(self).events().push(IoEvent::Discard { outcome }),
            transport::moves(
                old(self).transport(),
                final(self).events().last(),
                final(self).transport(),
            ),
            exists|io: &mut T|
                {
                    &&& *io == old(self).transport()
                    &&& *final(io) == final(self).transport()
                    &&& #[trigger] call_ensures(T::discard_pending_input, (io,), outcome)
                },
    {
        let outcome = self.io.discard_pending_input();
        proof {
            self.events@ = self.events@.push(IoEvent::Discard { outcome });
        }
        outcome
    }

    /// Waits for `millis` milliseconds.
    pub fn delay(&mut self, millis: u64)
        ensures
            final(self).events() == old(self).events().push(IoEvent::Delay { millis }),
            transport::moves(
                old(self).transport(),
                final(self).events().last(),
                final(self).transport(),
            ),
            exists|io: &mut T|
                {
                    &&& *io == old(self).transport()
                    &&& *final(io) == final(self).transport()
                    &&& #[trigger] call_ensures(T::delay_ms, (io, millis), ())
                },
    {
        self.io.delay_ms(millis);
        proof {
            self.events@ = self.events@.push(IoEvent::Delay { millis });
        }
    }
}

} // verus!
