//! The streaming encoder: the header goes out when the encoder is made, then
//! one frame per block in the order in which blocks are handed over, until the
//! stream is closed and the bytes can be taken.
use vstd::prelude::*;
use crate::cid::{CidValue, ContentIdentifier};
use crate::error::CarError;
use crate::frame::{frame_body, frame_bytes, lemma_frame_round_trip, parse_frame, write_frame};
use crate::header::{
    header_bytes, lemma_header_round_trip, parse_header, roots_encodable, views, ContainerHeader,
};
use crate::varint::lemma_varint_round_trip;

verus! {

/// The frames of `blocks`, in order.
pub open spec fn frames_bytes(blocks: Seq<(CidValue, Seq<u8>)>) -> Seq<u8>
    decreases blocks.len(),
{
    if blocks.len() == 0 {
        seq![]
    } else {
        frames_bytes(blocks.drop_last()) + frame_bytes(blocks.last().0, blocks.last().1)
    }
}

/// A whole archive: the header, then one frame per block.
pub open spec fn archive_bytes(
    version: u64,
    roots: Seq<CidValue>,
    blocks: Seq<(CidValue, Seq<u8>)>,
) -> Seq<u8> {
    header_bytes(version, roots) + frames_bytes(blocks)
}

/// One unit of data and the identifier that addresses it.
pub struct Block {
    pub cid: ContentIdentifier,
    pub data: Vec<u8>,
}

impl View for Block {
    type V = (CidValue, Seq<u8>);

    open spec fn view(&self) -> (CidValue, Seq<u8>) {
        (self.cid@, self.data@)
    }
}

pub struct CarEncoder {
    out: Vec<u8>,
    closed: bool,
    version: Ghost<u64>,
    roots: Ghost<Seq<CidValue>>,
    blocks: Ghost<Seq<(CidValue, Seq<u8>)>>,
}

impl CarEncoder {
    /// The bytes written so far.
    pub closed spec fn output(&self) -> Seq<u8> {
        self.out@
    }

    /// Whether the block stream has ended.
    pub closed spec fn is_closed(&self) -> bool {
        self.closed
    }

    pub closed spec fn version(&self) -> u64 {
        self.version@
    }

    pub closed spec fn roots(&self) -> Seq<CidValue> {
        self.roots@
    }

    /// The blocks received so far, in order of arrival.
    pub closed spec fn received(&self) -> Seq<(CidValue, Seq<u8>)> {
        self.blocks@
    }

    /// The output is always the header followed by the frames of the blocks
    /// received, each once and in order of arrival.
    pub open spec fn wf(&self) -> bool {
        self.output() == archive_bytes(self.version(), self.roots(), self.received())
    }

    /// Starts an archive: the header is serialized at once.
    pub fn new(header: &ContainerHeader) -> (r: CarEncoder)
        ensures
            r.wf(),
            !r.is_closed(),
            r.version() == header.version,
            r.roots() == views(header.roots@),
            r.received() == Seq::<(CidValue, Seq<u8>)>::empty(),
            r.output() == header_bytes(header.version, views(header.roots@)),
    {
        let out = header.serialize();
        let ghost roots = views(header.roots@);
        let r = CarEncoder {
            out,
            closed: false,
            version: Ghost(header.version),
            roots: Ghost(roots),
            blocks: Ghost(Seq::empty()),
        };
        assert(r.output() =~= archive_bytes(header.version, roots, Seq::empty()));
        r
    }

    /// Takes one block off the stream and appends its frame. A block handed
    /// over after the stream was closed is refused and changes nothing.
    pub fn receive_block(&mut self, block: Block) -> (r: Result<
        (),
        CarError,
    >)
        requires
            old(self).wf(),
        ensures
            final(self).wf(),
            final(self).version() == old(self).version(),
            final(self).roots() == old(self).roots(),
            final(self).is_closed() == old(self).is_closed(),
            old(self).is_closed() ==> r == Err::<(), CarError>(CarError::ChannelClosed)
                && final(self).received() == old(self).received() && final(self).output()
                == old(self).output(),
            !old(self).is_closed() ==> r == Ok::<(), CarError>(()) && final(self).received()
                == old(self).received().push(block@) && final(self).output() == old(
                self,
            ).output() + frame_bytes(block.cid@, block.data@),
    {
        if self.closed {
            return Err(CarError::ChannelClosed);
        }
        let ghost before = self.blocks@;
        write_frame(&mut self.out, &block.cid, block.data.as_slice());
        self.blocks = Ghost(self.blocks@.push(block@));
        assert(self.blocks@.drop_last() =~= before);
        assert(self.out@ =~= archive_bytes(self.version@, self.roots@, self.blocks@));
        Ok(())
    }

    /// Marks the end of the block stream.
    pub fn close(&mut self)
        requires
            old(self).wf(),
        ensures
            final(self).wf(),
            final(self).is_closed(),
            final(self).version() == old(self).version(),
            final(self).roots() == old(self).roots(),
            final(self).received() == old(self).received(),
            final(self).output() == old(self).output(),
    {
        self.closed = true;
    }

    /// Hands over the finished archive; nothing while the stream is still open.
    pub fn take_output(self) -> (r: Option<Vec<u8>>)
        requires
            self.wf(),
        ensures
            self.is_closed() ==> r is Some && r->Some_0@ == archive_bytes(
                self.version(),
                self.roots(),
                self.received(),
            ),
            !self.is_closed() ==> r is None,
    {
        if self.closed {
            Some(self.out)
        } else {
            None
        }
    }
}

} // verus!

verus! {

/// Reads frames until `s` is used up.
pub open spec fn parse_frames(s: Seq<u8>) -> Option<Seq<(CidValue, Seq<u8>)>>
    decreases s.len(),
{
    if s.len() == 0 {
        Some(seq![])
    } else {
        match parse_frame(s) {
            None => None,
            Some((block, m)) => if 0 < m <= s.len() {
                match parse_frames(s.skip(m as int)) {
                    None => None,
                    Some(rest) => Some(seq![block] + rest),
                }
            } else {
                None
            },
        }
    }
}

/// Reads a whole archive: version, roots, and every block in order.
pub open spec fn parse_archive(s: Seq<u8>) -> Option<
    (u64, Seq<CidValue>, Seq<(CidValue, Seq<u8>)>),
> {
    match parse_header(s) {
        None => None,
        Some(((version, roots), k)) => match parse_frames(s.skip(k as int)) {
            None => None,
            Some(blocks) => Some((version, roots, blocks)),
        },
    }
}

proof fn lemma_frames_prepend(b: (CidValue, Seq<u8>), bs: Seq<(CidValue, Seq<u8>)>)
    ensures
        frames_bytes(seq![b] + bs) == frame_bytes(b.0, b.1) + frames_bytes(bs),
    decreases bs.len(),
{
    let all = seq![b] + bs;
    if bs.len() == 0 {
        assert(all.drop_last() =~= Seq::<(CidValue, Seq<u8>)>::empty());
        assert(all.last() == b);
        assert(frames_bytes(all.drop_last()) =~= Seq::<u8>::empty());
        assert(frames_bytes(all) =~= frame_bytes(b.0, b.1) + frames_bytes(bs));
    } else {
        lemma_frames_prepend(b, bs.drop_last());
        assert(all.drop_last() =~= seq![b] + bs.drop_last());
        assert(all.last() == bs.last());
        assert(frames_bytes(all) =~= frame_bytes(b.0, b.1) + frames_bytes(bs));
    }
}

proof fn lemma_frames_round_trip(blocks: Seq<(CidValue, Seq<u8>)>)
    ensures
        parse_frames(frames_bytes(blocks)) == Some(blocks),
    decreases blocks.len(),
{
    if blocks.len() > 0 {
        let b = blocks[0];
        let tail = blocks.drop_first();
        assert(blocks =~= seq![b] + tail);
        lemma_frames_prepend(b, tail);
        let s = frames_bytes(blocks);
        lemma_frame_round_trip(b.0, b.1, frames_bytes(tail));
        lemma_varint_round_trip(frame_body(b.0, b.1).len(), frame_body(b.0, b.1));
        let m = frame_bytes(b.0, b.1).len();
        assert(s.skip(m as int) =~= frames_bytes(tail));
        lemma_frames_round_trip(tail);
    } else {
        assert(frames_bytes(blocks) =~= Seq::<u8>::empty());
        assert(blocks =~= seq![]);
    }
}

/// Reading an archive back gives its version, its roots, and exactly the
/// blocks it was written with: each once, in the order written.
pub proof fn lemma_archive_round_trip(
    version: u64,
    roots: Seq<CidValue>,
    blocks: Seq<(CidValue, Seq<u8>)>,
)
    requires
        roots_encodable(roots),
    ensures
        parse_archive(archive_bytes(version, roots, blocks)) == Some((version, roots, blocks)),
{
    let h = header_bytes(version, roots);
    let s = archive_bytes(version, roots, blocks);
    lemma_header_round_trip(version, roots, frames_bytes(blocks));
    assert(s.skip(h.len() as int) =~= frames_bytes(blocks));
    lemma_frames_round_trip(blocks);
}

/// What an encoder has written reads back as its header and exactly the blocks
/// it received: each once, in order of arrival.
pub proof fn lemma_encoder_output_reads_back(e: &CarEncoder)
    requires
        e.wf(),
        roots_encodable(e.roots()),
    ensures
        parse_archive(e.output()) == Some((e.version(), e.roots(), e.received())),
{
    lemma_archive_round_trip(e.version(), e.roots(), e.received());
}

} // verus!
