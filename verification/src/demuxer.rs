//! The demuxer session: parsed header, pending-event queue, and the
//! lifecycle state machine that sequences stream discovery, draining and
//! end-of-input detection.

use std::collections::VecDeque;

use vstd::prelude::*;

use crate::error::Error;
use crate::parser::HeaderParse;
use crate::parser::Y4MHeader;
use crate::parser::err_of;
use crate::parser::header;
use crate::parser::parse_header;

verus! {

/// One elementary-stream description handed to the host on a successful
/// open. Y4M carries no identifier, timing or rate data, so those fields
/// take fixed sentinel values.
#[derive(Clone, Debug, PartialEq)]
pub struct Stream {
    pub id: isize,
    pub index: usize,
    pub bit_rate: usize,
    pub delay: usize,
    pub convergence_window: usize,
    pub width: usize,
    pub height: usize,
    pub timebase_num: i64,
    pub timebase_den: i64,
    pub start: Option<u64>,
    pub duration: Option<u64>,
}

/// A coded media unit.
#[derive(Clone, Debug, PartialEq)]
pub struct Packet {
    pub data: Vec<u8>,
    pub pos: Option<usize>,
}

/// An event communicated to the host runtime.
#[derive(Clone, Debug, PartialEq)]
pub enum Event {
    /// The input is insufficient; the caller must supply at least this many
    /// more bytes before retrying.
    MoreDataNeeded(usize),
    /// A newly discovered elementary stream.
    NewStream(Stream),
    /// A decoded media unit is ready.
    NewPacket(Packet),
    /// No event was produced this call; the caller should call again.
    Continue,
    /// The input is exhausted; terminal for the session.
    Eof,
}

/// Lifecycle phase of a demuxer session.
#[derive(Clone, Copy, Debug, PartialEq, Eq, Structural)]
pub enum Phase {
    /// No header has been read yet.
    Unopened,
    /// The header is read; events can be drained.
    Opened,
    /// End of input was delivered; no further operation is valid.
    Closed,
}

/// The stream description a successful open registers: one video stream,
/// index and id 0, the header's dimensions, a nanosecond timebase, and
/// sentinel rate and timing values.
pub open spec fn video_stream(width: nat, height: nat) -> Stream {
    Stream {
        id: 0,
        index: 0,
        bit_rate: 1,
        delay: 0,
        convergence_window: 0,
        width: width as usize,
        height: height as usize,
        timebase_num: 1,
        timebase_den: 1000000000,
        start: None,
        duration: None,
    }
}

/// The header record a successful open stores, with the parsed dimensions.
pub open spec fn header_record(width: nat, height: nat) -> Y4MHeader {
    Y4MHeader { width: width as usize, height: height as usize }
}

/// A demuxer session: the header record once available and the queue of
/// pending events, delivered first-in first-out.
pub struct Y4MDemuxer {
    header: Option<Y4MHeader>,
    queue: VecDeque<Event>,
    phase: Phase,
}

impl Y4MDemuxer {
    /// The session's lifecycle phase.
    pub closed spec fn phase(self) -> Phase {
        self.phase
    }

    /// The pending events, front first.
    pub closed spec fn events(self) -> Seq<Event> {
        self.queue@
    }

    /// The header record, present exactly after a successful open.
    pub closed spec fn header_rec(self) -> Option<Y4MHeader> {
        self.header
    }

    /// A fresh, unopened session with no pending events.
    pub fn new() -> (d: Y4MDemuxer)
        ensures
            d.phase() == Phase::Unopened,
            d.events() == Seq::<Event>::empty(),
            d.header_rec() is None,
    {
        Y4MDemuxer { header: None, queue: VecDeque::new(), phase: Phase::Unopened }
    }

    /// Opens the session against the currently buffered bytes: parses the
    /// header line, stores the header record, and returns the stream
    /// description to register together with the byte count the caller
    /// must advance its read cursor by. A parse failure leaves the session
    /// unopened and unchanged; a session can be opened once, and a closed
    /// one not at all.
    pub fn read_headers(&mut self, data: &[u8]) -> (r: Result<(Stream, usize), Error>)
        ensures
            old(self).phase() != Phase::Unopened ==> r == Err::<(Stream, usize), Error>(
                Error::InvalidState,
            ) && *final(self) == *old(self),
            old(self).phase() == Phase::Unopened && !(parse_header(data@) is Done) ==> r == Err::<
                (Stream, usize),
                Error,
            >(err_of(parse_header(data@))) && *final(self) == *old(self),
            old(self).phase() == Phase::Unopened ==> (parse_header(
                data@,
            ) matches HeaderParse::Done { width, height, used } ==> r matches Ok(p) && p.0
                == video_stream(width, height) && p.1 as nat == used && final(self).phase()
                == Phase::Opened && final(self).header_rec() == Some(header_record(width, height))
                && final(self).events() == old(self).events()),
    {
        match self.phase {
            Phase::Unopened => {},
            _ => {
                return Err(Error::InvalidState);
            },
        }
        match header(data) {
            Ok((hd, used)) => {
                let st = Stream {
                    id: 0,
                    index: 0,
                    bit_rate: 1,
                    delay: 0,
                    convergence_window: 0,
                    width: hd.width,
                    height: hd.height,
                    timebase_num: 1,
                    timebase_den: 1000000000,
                    start: None,
                    duration: None,
                };
                self.header = Some(hd);
                self.phase = Phase::Opened;
                Ok((st, used))
            },
            Err(e) => Err(e),
        }
    }

    /// Delivers the next event: the front of the queue when one is
    /// pending; end of input, closing the session, when the queue is empty
    /// and no buffered bytes remain; otherwise the request reaches the raw
    /// frame stream, whose extraction this demuxer does not provide, and
    /// fails without corrupting the session. Every call on a closed
    /// session fails, so end of input is delivered at most once.
    pub fn read_event(&mut self, data: &[u8]) -> (r: Result<Event, Error>)
        ensures
            final(self).header_rec() == old(self).header_rec(),
            old(self).phase() == Phase::Closed ==> r == Err::<Event, Error>(Error::InvalidState)
                && final(self).phase() == old(self).phase() && final(self).events() == old(
                self,
            ).events(),
            old(self).phase() != Phase::Closed && old(self).events().len() > 0 ==> (r matches Ok(e)
                && e == old(self).events()[0] && final(self).events() == old(self).events().skip(1)
                && final(self).phase() == old(self).phase()),
            old(self).phase() != Phase::Closed && old(self).events().len() == 0 && data@.len() == 0
                ==> r == Ok::<Event, Error>(Event::Eof) && final(self).phase() == Phase::Closed
                && final(self).events() == old(self).events(),
            old(self).phase() != Phase::Closed && old(self).events().len() == 0 && data@.len() > 0
                ==> r == Err::<Event, Error>(Error::NotImplemented) && final(self).phase() == old(
                self,
            ).phase() && final(self).events() == old(self).events(),
    {
        match self.phase {
            Phase::Closed => {
                return Err(Error::InvalidState);
            },
            _ => {},
        }
        match self.queue.pop_front() {
            Some(event) => {
                proof {
                    assert(self.queue@ =~= old(self).queue@.skip(1));
                }
                Ok(event)
            },
            None => {
                if data.len() == 0 {
                    self.phase = Phase::Closed;
                    Ok(Event::Eof)
                } else {
                    Err(Error::NotImplemented)
                }
            },
        }
    }
}

} // verus!
