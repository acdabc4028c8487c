//! The decisions of the playback worker, which owns the one audio sink:
//! every new request interrupts and replaces what is playing.

use vstd::prelude::*;

verus! {

/// The number of requests that may wait for the worker. A sender that finds
/// the queue full waits.
pub const QUEUE_CAPACITY: usize = 10;

/// What the worker does next with its sink.
#[derive(Debug)]
pub enum Order {
    /// Stop and drop what the sink holds, where `clear` is set; then decode
    /// the file.
    Decode { path: String, clear: bool },
    /// Load the decoded file into the sink and start playback.
    Play { path: String },
    /// Nothing: the request is passed over.
    Skip,
}

/// What an order says.
pub enum Command {
    Decode { path: Seq<char>, clear: bool },
    Play { path: Seq<char> },
    Skip,
}

impl View for Order {
    type V = Command;

    open spec fn view(&self) -> Command {
        match self {
            Order::Decode { path, clear } => Command::Decode { path: path@, clear: *clear },
            Order::Play { path } => Command::Play { path: path@ },
            Order::Skip => Command::Skip,
        }
    }
}

/// The worker between two steps: idle, or waiting for the file of a request
/// to be decoded.
#[derive(Debug)]
pub struct Worker {
    pending: Option<String>,
}

/// What a sink holds: the files loaded into it that have not played to
/// their end, oldest first.
pub open spec fn carried_out(sink: Seq<Seq<char>>, command: Command) -> Seq<Seq<char>> {
    match command {
        Command::Decode { path, clear } => if clear {
            Seq::empty()
        } else {
            sink
        },
        Command::Play { path } => sink.push(path),
        Command::Skip => sink,
    }
}

impl Worker {
    /// The file that is being decoded.
    pub closed spec fn pending(&self) -> Option<Seq<char>> {
        match self.pending {
            Some(path) => Some(path@),
            None => None,
        }
    }

    /// An idle worker.
    pub fn new() -> (worker: Worker)
        ensures
            worker.pending() is None,
    {
        Worker { pending: None }
    }

    /// A request has arrived, and the sink says whether it holds anything.
    /// What it holds is stopped and dropped before the new file is decoded;
    /// a request that was still being decoded is forgotten.
    pub fn request(&mut self, path: String, sink_busy: bool) -> (order: Order)
        ensures
            final(self).pending() == Some(path@),
            order@ == (Command::Decode { path: path@, clear: sink_busy }),
    {
        let order = Order::Decode { path: path.clone(), clear: sink_busy };
        self.pending = Some(path);
        order
    }

    /// The decoder has answered. A file that was decoded is loaded and
    /// played; one that was not is passed over, and the worker goes on.
    pub fn decoded(&mut self, ok: bool) -> (order: Order)
        ensures
            final(self).pending() is None,
            order@ == (if ok && old(self).pending() is Some {
                Command::Play { path: old(self).pending()->0 }
            } else {
                Command::Skip
            }),
    {
        match self.pending.take() {
            Some(path) => {
                if ok {
                    Order::Play { path }
                } else {
                    Order::Skip
                }
            },
            None => Order::Skip,
        }
    }
}

/// One preview is audible at a time: whatever the sink held, after a
/// request that was decoded it holds the requested file and nothing else;
/// after one that could not be decoded it holds nothing.
pub proof fn law_interrupt_and_replace(sink: Seq<Seq<char>>, path: Seq<char>, ok: bool)
    ensures
        ({
            let cleared = carried_out(sink, Command::Decode { path, clear: sink.len() > 0 });
            let played = carried_out(
                cleared,
                if ok {
                    Command::Play { path }
                } else {
                    Command::Skip
                },
            );
            played == if ok {
                seq![path]
            } else {
                Seq::<Seq<char>>::empty()
            }
        }),
{
    let cleared = carried_out(sink, Command::Decode { path, clear: sink.len() > 0 });
    assert(cleared =~= Seq::<Seq<char>>::empty());
    assert(cleared.push(path) =~= seq![path]);
}

/// Of two requests in a row, only the second is left in the sink: the
/// first is dropped when the second arrives, whether it had been decoded
/// or not.
pub proof fn law_second_request_wins(sink: Seq<Seq<char>>, first: Seq<char>, second: Seq<char>, first_ok: bool)
    ensures
        ({
            let after_first = carried_out(
                carried_out(sink, Command::Decode { path: first, clear: sink.len() > 0 }),
                if first_ok {
                    Command::Play { path: first }
                } else {
                    Command::Skip
                },
            );
            let after_second = carried_out(
                carried_out(after_first, Command::Decode { path: second, clear: after_first.len() > 0 }),
                Command::Play { path: second },
            );
            after_second == seq![second]
        }),
{
    law_interrupt_and_replace(sink, first, first_ok);
    let after_first = carried_out(
        carried_out(sink, Command::Decode { path: first, clear: sink.len() > 0 }),
        if first_ok {
            Command::Play { path: first }
        } else {
            Command::Skip
        },
    );
    law_interrupt_and_replace(after_first, second, true);
}

} // verus!
