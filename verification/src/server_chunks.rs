//! The server's side of chunk synchronization: which requests are served
//! and which wait, where a requested chunk comes from, and what a block edit
//! of a client does.

use vstd::prelude::*;
use crate::block::Block;
use crate::chunk::{Chunk, ChunkId, ChunkView, CompressedChunk, DecodeError, COMPRESSION_LEVEL};
use crate::chunk::{decode_compressed, encode_chunk};
use crate::loaded_chunks::LoadedChunks;
use crate::lz4_block::lz4_block_compressed;
use crate::message::ClientMessage;
use crate::position::IVec3;
use crate::world::{ChunkCompView, spawned, spec_write_block};

verus! {

/// A client's request for the chunk at a chunk position.
#[derive(Clone, Copy, Debug, PartialEq, Eq, Structural)]
pub struct ChunkRequest {
    pub client: u64,
    pub pos: IVec3,
}

/// Of the requests `attempts`, those that stay waiting, in their order:
/// `answers[i]` says whether the transport took the chunk for `attempts[i]`.
pub open spec fn kept(attempts: Seq<ChunkRequest>, answers: Seq<bool>) -> Seq<ChunkRequest>
    decreases attempts.len(),
{
    if attempts.len() == 0 {
        Seq::empty()
    } else {
        let rest = kept(attempts.drop_last(), answers.drop_last());
        if answers.last() {
            rest
        } else {
            rest.push(attempts.last())
        }
    }
}

/// Of the requests `attempts`, those that are served, in their order.
pub open spec fn served(attempts: Seq<ChunkRequest>, answers: Seq<bool>) -> Seq<ChunkRequest>
    decreases attempts.len(),
{
    if attempts.len() == 0 {
        Seq::empty()
    } else {
        let rest = served(attempts.drop_last(), answers.drop_last());
        if answers.last() {
            rest.push(attempts.last())
        } else {
            rest
        }
    }
}

/// One tick of the server: the requests that wait are tried again, oldest
/// first, and then the requests that came in. Gives the requests that wait
/// after the tick and those that were served in it.
pub open spec fn spec_tick(
    waiting: Seq<ChunkRequest>,
    incoming: Seq<ChunkRequest>,
    answers: Seq<bool>,
) -> (Seq<ChunkRequest>, Seq<ChunkRequest>) {
    (kept(waiting + incoming, answers), served(waiting + incoming, answers))
}

/// The answers of a transport that takes one chunk in a tick: yes to the
/// first of `n` attempts, no to the others.
pub open spec fn first_only(n: nat) -> Seq<bool> {
    Seq::new(n, |i: int| i == 0)
}

/// What `ticks` ticks make of the requests `waiting` when nothing comes in
/// and the transport takes one chunk in a tick: the requests that still
/// wait, and those that were served, in the order of serving.
pub open spec fn drained(waiting: Seq<ChunkRequest>, ticks: nat) -> (Seq<ChunkRequest>, Seq<ChunkRequest>)
    decreases ticks,
{
    if ticks == 0 {
        (waiting, Seq::empty())
    } else {
        let (left, sent) = drained(waiting, (ticks - 1) as nat);
        let (still, now) = spec_tick(left, Seq::empty(), first_only(left.len()));
        (still, sent + now)
    }
}

/// A transport that takes one chunk in a tick serves the first attempt and
/// keeps the others waiting, in their order.
pub proof fn lemma_first_only(attempts: Seq<ChunkRequest>)
    ensures
        attempts.len() == 0 ==> kept(attempts, first_only(0)) == Seq::<ChunkRequest>::empty()
            && served(attempts, first_only(0)) == Seq::<ChunkRequest>::empty(),
        attempts.len() > 0 ==> kept(attempts, first_only(attempts.len())) == attempts.skip(1)
            && served(attempts, first_only(attempts.len())) == attempts.take(1),
    decreases attempts.len(),
{
    let n = attempts.len();
    if n == 0 {
    } else {
        let before = attempts.drop_last();
        lemma_first_only(before);
        assert(first_only(n).drop_last() =~= first_only((n - 1) as nat));
        if n == 1 {
            assert(kept(before, first_only(0)) =~= Seq::<ChunkRequest>::empty());
            assert(attempts.skip(1) =~= Seq::<ChunkRequest>::empty());
            assert(attempts.take(1) =~= Seq::<ChunkRequest>::empty().push(attempts.last()));
        } else {
            assert(attempts.skip(1) =~= before.skip(1).push(attempts.last()));
            assert(attempts.take(1) =~= before.take(1));
        }
    }
}

/// With one chunk a tick and nothing coming in, `ticks` ticks serve the
/// first `ticks` waiting requests, in their order, and keep the others.
pub proof fn lemma_drained(waiting: Seq<ChunkRequest>, ticks: nat)
    requires
        ticks <= waiting.len(),
    ensures
        drained(waiting, ticks) == (waiting.skip(ticks as int), waiting.take(ticks as int)),
    decreases ticks,
{
    if ticks == 0 {
        assert(waiting.skip(0) =~= waiting);
        assert(waiting.take(0) =~= Seq::<ChunkRequest>::empty());
    } else {
        lemma_drained(waiting, (ticks - 1) as nat);
        let left = waiting.skip(ticks - 1);
        let sent = waiting.take(ticks - 1);
        assert(left + Seq::<ChunkRequest>::empty() =~= left);
        lemma_first_only(left);
        assert(left.skip(1) =~= waiting.skip(ticks as int));
        assert(sent + left.take(1) =~= waiting.take(ticks as int));
    }
}

/// The queue drains. When `requests` come in in one tick, none waiting
/// before, and the transport takes one chunk in a tick, then after as many
/// ticks as there are requests none waits any more, and all have been
/// served, in the order in which they came.
pub proof fn lemma_queue_drains(requests: Seq<ChunkRequest>)
    requires
        requests.len() >= 1,
    ensures
        ({
            let (waiting, first) = spec_tick(
                Seq::empty(),
                requests,
                first_only(requests.len()),
            );
            let (left, later) = drained(waiting, (requests.len() - 1) as nat);
            left == Seq::<ChunkRequest>::empty() && first + later == requests
        }),
{
    assert(Seq::<ChunkRequest>::empty() + requests =~= requests);
    lemma_first_only(requests);
    let waiting = requests.skip(1);
    lemma_drained(waiting, (requests.len() - 1) as nat);
    assert(waiting.skip(requests.len() - 1) =~= Seq::<ChunkRequest>::empty());
    assert(requests.take(1) + waiting.take(requests.len() - 1) =~= requests);
}

/// The requests that could not be served yet, oldest first.
pub struct RequestQueue {
    waiting: Vec<ChunkRequest>,
}

impl View for RequestQueue {
    type V = Seq<ChunkRequest>;

    closed spec fn view(&self) -> Seq<ChunkRequest> {
        self.waiting@
    }
}

impl RequestQueue {
    /// A queue in which no request waits.
    pub fn new() -> (queue: RequestQueue)
        ensures
            queue@ == Seq::<ChunkRequest>::empty(),
    {
        RequestQueue { waiting: Vec::new() }
    }

    /// Number of requests that wait.
    pub fn len(&self) -> (n: usize)
        ensures
            n == self@.len(),
    {
        self.waiting.len()
    }

    /// Starts a tick: hands out the requests that wait, oldest first, to be
    /// tried again before the requests that came in, and leaves the queue
    /// empty.
    pub fn begin_tick(&mut self) -> (again: Vec<ChunkRequest>)
        ensures
            again@ == old(self)@,
            final(self)@ == Seq::<ChunkRequest>::empty(),
    {
        let mut again: Vec<ChunkRequest> = Vec::new();
        again.append(&mut self.waiting);
        again
    }

    /// Decides about one request. `can_send` is the answer of the transport
    /// to whether it takes a chunk for the client now. Where it does, the
    /// request is to be served at once and `true` is returned. Where it does
    /// not, the request joins the end of the queue: it is not dropped.
    pub fn attempt(&mut self, request: ChunkRequest, can_send: bool) -> (serve: bool)
        ensures
            serve == can_send,
            final(self)@ == if can_send {
                old(self)@
            } else {
                old(self)@.push(request)
            },
    {
        if !can_send {
            self.waiting.push(request);
        }
        can_send
    }

    /// Decides about the requests `attempts` in their order, `answers[i]`
    /// being the answer of the transport for `attempts[i]`. Returns the
    /// requests to serve, in their order; the others join the queue.
    pub fn attempt_all(&mut self, attempts: &Vec<ChunkRequest>, answers: &Vec<bool>) -> (serve: Vec<
        ChunkRequest,
    >)
        requires
            attempts@.len() == answers@.len(),
        ensures
            serve@ == served(attempts@, answers@),
            final(self)@ == old(self)@ + kept(attempts@, answers@),
    {
        let mut serve: Vec<ChunkRequest> = Vec::new();
        let mut i: usize = 0;
        assert(old(self)@ + kept(attempts@.take(0), answers@.take(0)) =~= old(self)@);
        while i < attempts.len()
            invariant
                i <= attempts.len(),
                attempts@.len() == answers@.len(),
                serve@ == served(attempts@.take(i as int), answers@.take(i as int)),
                self@ == old(self)@ + kept(attempts@.take(i as int), answers@.take(i as int)),
            decreases attempts.len() - i,
        {
            proof {
                assert(attempts@.take(i + 1).drop_last() =~= attempts@.take(i as int));
                assert(answers@.take(i + 1).drop_last() =~= answers@.take(i as int));
            }
            let ghost before = self@;
            if self.attempt(attempts[i], answers[i]) {
                serve.push(attempts[i]);
            }
            proof {
                let head = kept(attempts@.take(i as int), answers@.take(i as int));
                if !answers@[i as int] {
                    assert(before.push(attempts@[i as int]) =~= old(self)@ + head.push(
                        attempts@[i as int],
                    ));
                }
            }
            i += 1;
        }
        proof {
            assert(attempts@.take(attempts@.len() as int) =~= attempts@);
            assert(answers@.take(answers@.len() as int) =~= answers@);
        }
        serve
    }
}

/// The voxels of a generated chunk: grass where `solid` says so for the
/// place of the voxel, air elsewhere and where `solid` has no entry.
pub open spec fn generated_cubes(solid: Seq<bool>) -> Seq<Block> {
    Seq::new(
        4096,
        |i: int|
            if i < solid.len() && solid[i] {
                Block::Grass
            } else {
                Block::Air
            },
    )
}

/// Builds the chunk at `pos` of generated terrain. `solid` says for each
/// voxel, by its place among the voxels of a chunk, whether the terrain is
/// solid there. The chunk is clean and has no links.
pub fn gen_chunk(pos: IVec3, solid: &Vec<bool>) -> (chunk: Chunk)
    ensures
        chunk@.wf(),
        chunk@.pos == pos,
        chunk@.cubes == generated_cubes(solid@),
        !chunk@.dirty,
        chunk@ == chunk@.detached(),
{
    let mut chunk = Chunk::new();
    chunk.set_pos(pos);
    let mut i: usize = 0;
    while i < 4096
        invariant
            i <= 4096,
            chunk@.pos == pos,
            !chunk@.dirty,
            chunk@.neighbors == Seq::new(6, |k: int| None::<ChunkId>),
            chunk@.cubes.len() == 4096,
            forall|k: int| 0 <= k < i ==> #[trigger] chunk@.cubes[k] == generated_cubes(solid@)[k],
            forall|k: int| i <= k < 4096 ==> #[trigger] chunk@.cubes[k] == Block::Air,
        decreases 4096 - i,
    {
        if i < solid.len() && solid[i] {
            chunk.set_cube(i / 256, i / 16 % 16, i % 16, Block::Grass);
        }
        i += 1;
    }
    proof {
        chunk.lemma_wf();
        assert(chunk@.cubes =~= generated_cubes(solid@));
        assert(chunk@.neighbors =~= chunk@.detached().neighbors);
    }
    chunk
}

/// Where a chunk comes from that is not loaded yet.
pub enum ChunkSource {
    /// The compressed chunk that was found stored under the chunk's name.
    Stored(CompressedChunk),
    /// Nothing was stored: for each voxel whether the terrain is solid
    /// there.
    Generated(Vec<bool>),
}

/// A chunk of the table that is to be sent.
pub struct LoadedChunk {
    pub id: ChunkId,
    /// The chunk in compressed form, as it goes to the client.
    pub payload: CompressedChunk,
    /// Whether the payload is to be stored under the chunk's name: it is
    /// for a chunk that was generated just now.
    pub persist: bool,
}

/// The chunk that is loaded at `chunk_pos`, in compressed form and with all
/// the edits that it has seen, ready to be sent; `None` where no chunk is
/// loaded there.
pub fn loaded_payload(world: &LoadedChunks, chunk_pos: IVec3) -> (found: Option<LoadedChunk>)
    requires
        world.wf(),
    ensures
        match found {
            Some(loaded) => {
                &&& loaded.id < world@.len()
                &&& world@[loaded.id as int].chunk.pos == chunk_pos
                &&& loaded.payload@ == lz4_block_compressed(
                    encode_chunk(world@[loaded.id as int].chunk),
                    COMPRESSION_LEVEL as int,
                )
                &&& decode_compressed(loaded.payload@) == Ok::<ChunkView, DecodeError>(
                    world@[loaded.id as int].chunk.detached(),
                )
                &&& !loaded.persist
            },
            None => forall|id: int|
                0 <= id < world@.len() ==> (#[trigger] world@[id]).chunk.pos != chunk_pos,
        },
{
    match world.lookup(chunk_pos) {
        Some(id) => {
            let payload = world.get(id).read_chunk().compress();
            Some(LoadedChunk { id, payload, persist: false })
        },
        None => None,
    }
}

/// The chunk that `source` gives for the position `chunk_pos`: the stored
/// chunk, or the generated one, either of them at `chunk_pos`.
pub open spec fn sourced(chunk_pos: IVec3, source: &ChunkSource) -> Result<ChunkView, DecodeError> {
    match source {
        ChunkSource::Stored(packed) => match decode_compressed(packed@) {
            Ok(chunk) => Ok(ChunkView { pos: chunk_pos, ..chunk }),
            Err(e) => Err(e),
        },
        ChunkSource::Generated(solid) => Ok(
            ChunkView {
                pos: chunk_pos,
                cubes: generated_cubes(solid@),
                dirty: false,
                neighbors: Seq::new(6, |k: int| None::<ChunkId>),
            },
        ),
    }
}

/// Whether a chunk is loaded at `chunk_pos` in the table `world`.
pub open spec fn loaded_at(world: Seq<ChunkCompView>, chunk_pos: IVec3) -> bool {
    exists|id: int| 0 <= id < world.len() && (#[trigger] world[id]).chunk.pos == chunk_pos
}

/// Whether `loaded` is the chunk that is loaded at `chunk_pos` in `world`,
/// as it is now, in compressed form, and not to be stored.
pub open spec fn is_live(world: Seq<ChunkCompView>, chunk_pos: IVec3, loaded: LoadedChunk) -> bool {
    &&& loaded.id < world.len()
    &&& world[loaded.id as int].chunk.pos == chunk_pos
    &&& loaded.payload@ == lz4_block_compressed(
        encode_chunk(world[loaded.id as int].chunk),
        COMPRESSION_LEVEL as int,
    )
    &&& decode_compressed(loaded.payload@) == Ok::<ChunkView, DecodeError>(
        world[loaded.id as int].chunk.detached(),
    )
    &&& !loaded.persist
}

/// Whether `r` and the table `after` are what comes of loading the chunk at
/// `chunk_pos`, where none is loaded in `before`, from what `source` gave.
/// A chunk that could be read or generated has been added to the table
/// under the next free id and connected, and is returned in compressed
/// form, to be stored where it was generated. A stored chunk that cannot be
/// read is an error, and the table is as it was.
pub open spec fn loaded_from(
    before: Seq<ChunkCompView>,
    after: Seq<ChunkCompView>,
    chunk_pos: IVec3,
    source: ChunkSource,
    r: Result<LoadedChunk, DecodeError>,
) -> bool {
    match r {
        Ok(loaded) => {
            &&& sourced(chunk_pos, &source) matches Ok(chunk)
            &&& loaded.id == before.len()
            &&& spawned(before, after, chunk, loaded.id)
            &&& loaded.payload@ == lz4_block_compressed(encode_chunk(chunk), COMPRESSION_LEVEL as int)
            &&& decode_compressed(loaded.payload@) == Ok::<ChunkView, DecodeError>(chunk)
            &&& loaded.persist == (source is Generated)
        },
        Err(e) => sourced(chunk_pos, &source) == Err::<ChunkView, DecodeError>(e) && after == before,
    }
}

/// Gets the chunk at `chunk_pos` ready to be sent. Where a chunk is loaded
/// there, it is that chunk, with all the edits that it has seen: the table
/// stays as it is and `source` is not asked. Only where none is loaded is
/// `source` asked for what is stored or generated for the position; the
/// chunk that comes of it is registered in `world` and connected.
pub fn server_load_chunk<F>(world: &mut LoadedChunks, chunk_pos: IVec3, source: F) -> (r: Result<
    LoadedChunk,
    DecodeError,
>) where F: FnOnce() -> ChunkSource
    requires
        old(world).wf(),
        call_requires(source, ()),
    ensures
        final(world).wf(),
        loaded_at(old(world)@, chunk_pos) ==> {
            &&& r matches Ok(loaded)
            &&& is_live(old(world)@, chunk_pos, loaded)
            &&& final(world)@ == old(world)@
        },
        !loaded_at(old(world)@, chunk_pos) ==> exists|given: ChunkSource|
            call_ensures(source, (), given) && #[trigger] loaded_from(
                old(world)@,
                final(world)@,
                chunk_pos,
                given,
                r,
            ),
{
    match loaded_payload(world, chunk_pos) {
        Some(loaded) => {
            assert(loaded_at(old(world)@, chunk_pos)) by {
                assert(old(world)@[loaded.id as int].chunk.pos == chunk_pos);
            }
            Ok(loaded)
        },
        None => {
            let given = source();
            let r = load_from_source(world, chunk_pos, &given);
            assert(loaded_from(old(world)@, world@, chunk_pos, given, r));
            r
        },
    }
}

/// Builds the chunk at `chunk_pos` from `source`, registers it in `world`,
/// where no chunk is loaded at `chunk_pos`, and connects it.
fn load_from_source(world: &mut LoadedChunks, chunk_pos: IVec3, source: &ChunkSource) -> (r: Result<
    LoadedChunk,
    DecodeError,
>)
    requires
        old(world).wf(),
        !loaded_at(old(world)@, chunk_pos),
    ensures
        final(world).wf(),
        loaded_from(old(world)@, final(world)@, chunk_pos, *source, r),
{
    let (chunk, persist) = match source {
        ChunkSource::Stored(packed) => {
            match Chunk::from_compressed(packed) {
                Ok(stored) => {
                    let mut stored = stored;
                    let ghost read = stored@;
                    stored.set_pos(chunk_pos);
                    assert(stored@.neighbors =~= read.detached().neighbors);
                    (stored, false)
                },
                Err(e) => {
                    return Err(e);
                },
            }
        },
        ChunkSource::Generated(solid) => (gen_chunk(chunk_pos, solid), true),
    };
    let ghost view = chunk@;
    proof {
        assert(view.neighbors =~= view.detached().neighbors);
    }
    let payload = chunk.compress();
    let (id, _) = world.spawn(chunk);
    proof {
        if id < old(world)@.len() {
            assert(old(world)@[id as int].chunk.pos == chunk_pos);
        }
    }
    Ok(LoadedChunk { id, payload, persist })
}

/// An updated chunk that is to go to every client but one.
pub struct ChunkBroadcast {
    /// The chunk that was edited.
    pub id: ChunkId,
    /// The client whose edit it was: it knows the new state already.
    pub except: u64,
    /// The chunk after the edit, in compressed form.
    pub payload: CompressedChunk,
}

/// Whether `message` asks for a block edit.
pub open spec fn is_edit(message: ClientMessage) -> bool {
    message is BreakBlock || message is PlaceBlock
}

/// The world position of the voxel that the edit `message` writes.
pub open spec fn edit_pos(message: ClientMessage) -> IVec3 {
    match message {
        ClientMessage::BreakBlock(pos) => pos,
        ClientMessage::PlaceBlock(pos, block) => pos,
        _ => IVec3 { x: 0, y: 0, z: 0 },
    }
}

/// The block that the edit `message` writes: air where it breaks a block.
pub open spec fn edit_block(message: ClientMessage) -> Block {
    match message {
        ClientMessage::PlaceBlock(pos, block) => block,
        _ => Block::Air,
    }
}

/// Whether chunk `id` of `world` is the chunk that holds the world position
/// `pos`.
pub open spec fn holds(world: Seq<ChunkCompView>, id: int, pos: IVec3) -> bool {
    0 <= id < world.len() && world[id].chunk.pos == pos.spec_chunk_pos()
}

/// Whether `after` is the table `before` after `block` was written to the
/// voxel at the world position `pos`, which chunk `id` holds, and `payload`
/// is that chunk, after the write, in compressed form.
pub open spec fn edited(
    before: Seq<ChunkCompView>,
    after: Seq<ChunkCompView>,
    payload: Seq<u8>,
    id: int,
    pos: IVec3,
    block: Block,
) -> bool {
    let at = pos.spec_chunk_offset();
    &&& holds(before, id, pos)
    &&& after == spec_write_block(before, id, at.x as int, at.y as int, at.z as int, block)
    &&& payload == lz4_block_compressed(encode_chunk(after[id].chunk), COMPRESSION_LEVEL as int)
    &&& decode_compressed(payload) == Ok::<ChunkView, DecodeError>(after[id].chunk.detached())
}

/// Applies the block edit `message` of the client `client`. Where the chunk
/// of the edited voxel is loaded, the voxel is written as `write_block`
/// does it, and the chunk is returned in its new compressed form, to go to
/// all other clients. An edit in a chunk that is not loaded is ignored, and
/// so is a message that is no edit.
pub fn server_edit_block(world: &mut LoadedChunks, client: u64, message: ClientMessage) -> (sent:
    Option<ChunkBroadcast>)
    requires
        old(world).wf(),
    ensures
        final(world).wf(),
        match sent {
            Some(broadcast) => {
                &&& is_edit(message)
                &&& broadcast.except == client
                &&& edited(
                    old(world)@,
                    final(world)@,
                    broadcast.payload@,
                    broadcast.id as int,
                    edit_pos(message),
                    edit_block(message),
                )
            },
            None => {
                &&& final(world)@ == old(world)@
                &&& is_edit(message) ==> forall|id: int|
                    !#[trigger] holds(old(world)@, id, edit_pos(message))
            },
        },
{
    let (pos, block) = match message {
        ClientMessage::BreakBlock(pos) => (pos, Block::Air),
        ClientMessage::PlaceBlock(pos, block) => (pos, block),
        _ => {
            return None;
        },
    };
    let (chunk_pos, offset) = Chunk::i_world_to_chunk(pos);
    match world.lookup(chunk_pos) {
        Some(id) => {
            world.write_block(id, offset, block);
            let payload = world.get(id).read_chunk().compress();
            let broadcast = ChunkBroadcast { id, except: client, payload };
            proof {
                assert(holds(old(world)@, id as int, pos));
                assert(edited(old(world)@, world@, broadcast.payload@, id as int, pos, block));
            }
            Some(broadcast)
        },
        None => None,
    }
}

/// A message of a client, as it was received.
#[derive(Clone, Copy, Debug, PartialEq, Eq, Structural)]
pub struct Received {
    /// The client that sent the message.
    pub client: u64,
    pub message: ClientMessage,
}

/// The requests for chunks among `messages`, in their order.
pub open spec fn requests_of(messages: Seq<Received>) -> Seq<ChunkRequest>
    decreases messages.len(),
{
    if messages.len() == 0 {
        Seq::empty()
    } else {
        let rest = requests_of(messages.drop_last());
        match messages.last().message {
            ClientMessage::RequestChunk(pos) => rest.push(
                ChunkRequest { client: messages.last().client, pos },
            ),
            _ => rest,
        }
    }
}

/// The clients that sent a ping among `messages`, in the order of the pings.
pub open spec fn pings_of(messages: Seq<Received>) -> Seq<u64>
    decreases messages.len(),
{
    if messages.len() == 0 {
        Seq::empty()
    } else {
        let rest = pings_of(messages.drop_last());
        if messages.last().message is Ping {
            rest.push(messages.last().client)
        } else {
            rest
        }
    }
}

/// Starts the server's tick for chunk requests. Returns the requests to
/// decide about in this tick, in their order: first those that wait, oldest
/// first, then those among the messages that came in. The queue is empty
/// afterwards; `RequestQueue::attempt` puts back what cannot be served.
pub fn server_create_chunks(queue: &mut RequestQueue, messages: &Vec<Received>) -> (attempts: Vec<
    ChunkRequest,
>)
    ensures
        attempts@ == old(queue)@ + requests_of(messages@),
        final(queue)@ == Seq::<ChunkRequest>::empty(),
{
    let mut attempts = queue.begin_tick();
    let mut i: usize = 0;
    assert(messages@.take(0) =~= Seq::<Received>::empty());
    assert(attempts@ =~= old(queue)@ + requests_of(messages@.take(0)));
    while i < messages.len()
        invariant
            i <= messages.len(),
            attempts@ == old(queue)@ + requests_of(messages@.take(i as int)),
        decreases messages.len() - i,
    {
        proof {
            assert(messages@.take(i + 1).drop_last() =~= messages@.take(i as int));
        }
        let ghost before = requests_of(messages@.take(i as int));
        if let ClientMessage::RequestChunk(pos) = messages[i].message {
            attempts.push(ChunkRequest { client: messages[i].client, pos });
            assert(attempts@ =~= old(queue)@ + before.push(
                ChunkRequest { client: messages@[i as int].client, pos },
            ));
        }
        i += 1;
    }
    assert(messages@.take(messages@.len() as int) =~= messages@);
    attempts
}

/// The clients to answer with a pong: those that sent a ping, once for each
/// ping, in the order of the pings.
pub fn ping_test(messages: &Vec<Received>) -> (clients: Vec<u64>)
    ensures
        clients@ == pings_of(messages@),
{
    let mut clients: Vec<u64> = Vec::new();
    let mut i: usize = 0;
    assert(messages@.take(0) =~= Seq::<Received>::empty());
    while i < messages.len()
        invariant
            i <= messages.len(),
            clients@ == pings_of(messages@.take(i as int)),
        decreases messages.len() - i,
    {
        proof {
            assert(messages@.take(i + 1).drop_last() =~= messages@.take(i as int));
        }
        if let ClientMessage::Ping = messages[i].message {
            clients.push(messages[i].client);
        }
        i += 1;
    }
    assert(messages@.take(messages@.len() as int) =~= messages@);
    clients
}

} // verus!
