//! Framing serialized events into one trace document, in bounded batches.

use vstd::prelude::*;

verus! {

/// The number of pending bytes from which a batch is handed out.
pub const FLUSH_THRESHOLD: usize = 128 * 1024;

/// The bytes `{"traceEvents":[`, with which a document begins.
pub const OPENING: [u8; 16] = [
    0x7b, 0x22, 0x74, 0x72, 0x61, 0x63, 0x65, 0x45, 0x76, 0x65, 0x6e, 0x74, 0x73, 0x22, 0x3a, 0x5b,
];

/// The bytes `]}`, with which a document ends.
pub const CLOSING: [u8; 2] = [0x5d, 0x7d];

/// The byte `,`, which stands between two events.
pub const SEPARATOR: u8 = 0x2c;

/// The serialized events in their order, with a comma between every two.
pub open spec fn joined(events: Seq<Seq<u8>>) -> Seq<u8>
    decreases events.len(),
{
    if events.len() == 0 {
        Seq::empty()
    } else if events.len() == 1 {
        events[0]
    } else {
        joined(events.drop_last()) + seq![SEPARATOR] + events.last()
    }
}

/// The trace document of the given serialized events: one JSON object with
/// the single field `traceEvents`, an array that holds the events in their
/// order.
pub open spec fn document(events: Seq<Seq<u8>>) -> Seq<u8> {
    OPENING@ + joined(events) + CLOSING@
}

/// What one more event adds to a document under way: the event, after a
/// comma unless it is the first.
pub open spec fn addition(has_events: bool, json: Seq<u8>) -> Seq<u8> {
    if has_events {
        seq![SEPARATOR] + json
    } else {
        json
    }
}

/// All the given chunks one after another.
pub open spec fn concat(chunks: Seq<Vec<u8>>) -> Seq<u8>
    decreases chunks.len(),
{
    if chunks.len() == 0 {
        Seq::empty()
    } else {
        concat(chunks.drop_last()) + chunks.last()@
    }
}

/// Builds a trace document from events that are already serialized, and
/// hands it out in batches, so that the whole document is never held at
/// once. The caller writes each batch to its sink as it gets it.
pub struct ChromeTraceWriter {
    batch: Vec<u8>,
    started: bool,
}

impl ChromeTraceWriter {
    /// The bytes that have been framed and not yet handed out.
    pub closed spec fn pending(&self) -> Seq<u8> {
        self.batch@
    }

    /// Whether an event has been added.
    pub closed spec fn has_events(&self) -> bool {
        self.started
    }

    /// Begins a document.
    pub fn new() -> (r: ChromeTraceWriter)
        ensures
            r.pending() == OPENING@,
            !r.has_events(),
    {
        let mut batch: Vec<u8> = Vec::new();
        batch.extend_from_slice(OPENING.as_slice());
        assert(batch@ =~= OPENING@);
        ChromeTraceWriter { batch, started: false }
    }

    /// Adds one serialized event. Once at least `FLUSH_THRESHOLD` bytes are
    /// pending, all of them are handed out and none stays pending.
    pub fn push_event(&mut self, json: &[u8]) -> (r: Option<Vec<u8>>)
        ensures
            final(self).has_events(),
            match r {
                Some(chunk) => {
                    &&& chunk@ == old(self).pending() + addition(old(self).has_events(), json@)
                    &&& chunk@.len() >= FLUSH_THRESHOLD
                    &&& final(self).pending().len() == 0
                },
                None => {
                    &&& final(self).pending() == old(self).pending() + addition(
                        old(self).has_events(),
                        json@,
                    )
                    &&& final(self).pending().len() < FLUSH_THRESHOLD
                },
            },
    {
        if self.started {
            self.batch.push(SEPARATOR);
        }
        self.batch.extend_from_slice(json);
        self.started = true;
        assert(self.batch@ =~= old(self).batch@ + addition(old(self).started, json@));
        if self.batch.len() >= FLUSH_THRESHOLD {
            let mut chunk: Vec<u8> = Vec::new();
            std::mem::swap(&mut chunk, &mut self.batch);
            Some(chunk)
        } else {
            None
        }
    }

    /// Ends the document and hands out what is pending.
    pub fn finish(self) -> (r: Vec<u8>)
        ensures
            r@ == self.pending() + CLOSING@,
    {
        let mut batch = self.batch;
        batch.extend_from_slice(CLOSING.as_slice());
        assert(batch@ =~= self.batch@ + CLOSING@);
        batch
    }

    /// Frames the given serialized events and returns the batches in the
    /// order in which they are handed out. One after another they are the
    /// document of the events, and every batch but the last holds at least
    /// `FLUSH_THRESHOLD` bytes.
    pub fn frame(events: &[Vec<u8>]) -> (chunks: Vec<Vec<u8>>)
        ensures
            concat(chunks@) == document(events@.map_values(|e: Vec<u8>| e@)),
            chunks@.len() >= 1,
            forall|i: int|
                0 <= i < chunks@.len() - 1 ==> (#[trigger] chunks@[i])@.len() >= FLUSH_THRESHOLD,
    {
        let ghost serialized = events@.map_values(|e: Vec<u8>| e@);
        let mut writer = ChromeTraceWriter::new();
        let mut chunks: Vec<Vec<u8>> = Vec::new();
        let mut i: usize = 0;
        assert(serialized.take(0) =~= Seq::<Seq<u8>>::empty());
        assert(concat(chunks@) + writer.pending() =~= OPENING@ + joined(serialized.take(0)));
        while i < events.len()
            invariant
                i <= events@.len(),
                serialized == events@.map_values(|e: Vec<u8>| e@),
                writer.has_events() == (i > 0),
                concat(chunks@) + writer.pending() == OPENING@ + joined(serialized.take(i as int)),
                forall|k: int|
                    0 <= k < chunks@.len() ==> (#[trigger] chunks@[k])@.len() >= FLUSH_THRESHOLD,
            decreases events@.len() - i,
        {
            let ghost before = concat(chunks@) + writer.pending();
            let ghost had_events = writer.has_events();
            let ghost old_chunks = chunks@;
            match writer.push_event(events[i].as_slice()) {
                Some(chunk) => {
                    chunks.push(chunk);
                    assert(chunks@.drop_last() =~= old_chunks);
                },
                None => {},
            }
            proof {
                let shorter = serialized.take(i as int);
                let longer = serialized.take(i + 1);
                assert(longer.drop_last() =~= shorter);
                assert(longer.last() == events@[i as int]@);
                assert(concat(chunks@) + writer.pending() =~= before + addition(
                    had_events,
                    events@[i as int]@,
                ));
                assert(joined(longer) =~= joined(shorter) + addition(i > 0, events@[i as int]@)) by {
                    if i == 0 {
                        assert(joined(shorter) =~= Seq::<u8>::empty());
                    }
                }
                assert(OPENING@ + joined(longer) =~= before + addition(
                    had_events,
                    events@[i as int]@,
                ));
            }
            i = i + 1;
        }
        assert(serialized.take(i as int) =~= serialized);
        let ghost old_chunks = chunks@;
        let ghost framed = concat(chunks@) + writer.pending();
        let last = writer.finish();
        chunks.push(last);
        assert(chunks@.drop_last() =~= old_chunks);
        assert(concat(chunks@) =~= framed + CLOSING@);
        chunks
    }
}

} // verus!
