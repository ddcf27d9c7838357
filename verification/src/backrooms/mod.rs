//! The integer logic of the maze game: the maze, the queue of mouse bytes,
//! the decoding of mouse packets, the title screen's choices and layout, and
//! the path that the entity follows towards the player.
pub mod pathfinding;

use vstd::prelude::*;

verus! {

pub const MAP_WIDTH: usize = 32;
pub const MAP_HEIGHT: usize = 32;

/// The maze, row by row: 0 floor, 1 wall, 2 exit, 3 door.
pub const MAP: [u8; 1024] = [
    1, 1, 1, 1, 1, 1, 1, 1, 1, 1, 1, 1, 1, 1, 1, 1, 1, 1, 1, 1, 1, 1, 1, 1, 1, 1, 1, 1, 1, 1, 1, 1,
    1, 0, 0, 0, 0, 0, 0, 1, 0, 0, 0, 0, 0, 1, 0, 0, 0, 0, 0, 0, 1, 0, 0, 0, 0, 0, 0, 0, 0, 0, 0, 1,
    1, 0, 0, 0, 0, 0, 0, 1, 0, 0, 0, 0, 0, 1, 0, 0, 0, 0, 0, 0, 1, 0, 0, 0, 0, 0, 0, 0, 0, 0, 0, 1,
    1, 0, 0, 1, 0, 0, 0, 0, 0, 0, 0, 0, 0, 0, 0, 0, 0, 0, 0, 0, 0, 0, 0, 0, 0, 1, 0, 0, 0, 0, 0, 1,
    1, 0, 0, 0, 0, 0, 0, 1, 0, 0, 0, 0, 0, 1, 0, 0, 0, 0, 0, 0, 1, 0, 0, 0, 0, 0, 0, 0, 0, 0, 0, 1,
    1, 0, 0, 0, 0, 0, 0, 1, 1, 1, 3, 1, 1, 1, 0, 0, 0, 0, 0, 0, 1, 1, 1, 3, 1, 1, 1, 1, 1, 1, 1, 1,
    1, 1, 1, 0, 1, 1, 1, 1, 0, 0, 0, 0, 0, 1, 0, 0, 0, 0, 0, 0, 1, 0, 0, 0, 0, 0, 0, 0, 0, 0, 0, 1,
    1, 0, 0, 0, 0, 0, 0, 1, 0, 0, 0, 0, 0, 1, 0, 0, 0, 0, 0, 0, 1, 0, 0, 0, 0, 0, 0, 0, 0, 0, 0, 1,
    1, 0, 0, 0, 0, 0, 0, 0, 0, 0, 0, 0, 0, 0, 0, 0, 0, 0, 0, 0, 0, 0, 0, 0, 0, 0, 0, 0, 0, 0, 0, 1,
    1, 0, 0, 0, 0, 0, 0, 1, 0, 0, 0, 0, 0, 1, 1, 1, 1, 1, 1, 0, 1, 1, 1, 1, 1, 1, 0, 1, 1, 1, 1, 1,
    1, 1, 1, 0, 1, 1, 1, 1, 0, 0, 0, 0, 0, 1, 0, 0, 0, 0, 1, 0, 1, 0, 0, 0, 0, 1, 0, 1, 0, 0, 0, 1,
    1, 0, 0, 0, 0, 0, 0, 1, 0, 0, 0, 0, 0, 1, 0, 0, 1, 0, 1, 0, 1, 0, 1, 0, 0, 1, 0, 1, 0, 1, 0, 1,
    1, 0, 0, 1, 0, 0, 0, 1, 0, 0, 0, 0, 0, 3, 0, 0, 0, 0, 0, 0, 0, 0, 0, 0, 0, 3, 0, 0, 0, 0, 0, 1,
    1, 0, 0, 0, 0, 0, 0, 1, 0, 0, 0, 0, 0, 1, 0, 0, 1, 0, 1, 0, 1, 0, 1, 0, 0, 1, 0, 1, 0, 1, 0, 1,
    1, 0, 0, 0, 0, 0, 0, 1, 1, 1, 0, 1, 1, 1, 0, 0, 0, 0, 1, 0, 1, 0, 0, 0, 0, 1, 0, 1, 0, 0, 0, 1,
    1, 1, 1, 0, 1, 1, 1, 1, 0, 0, 0, 0, 0, 1, 1, 1, 0, 1, 1, 1, 1, 1, 1, 0, 1, 1, 1, 1, 1, 1, 0, 1,
    1, 0, 0, 0, 0, 0, 0, 1, 0, 0, 0, 0, 0, 1, 0, 0, 0, 0, 0, 0, 1, 0, 0, 0, 0, 0, 0, 0, 0, 0, 0, 1,
    1, 0, 0, 1, 0, 0, 0, 1, 0, 0, 0, 0, 0, 1, 0, 0, 0, 0, 0, 0, 1, 0, 0, 0, 0, 0, 0, 0, 0, 0, 0, 1,
    1, 0, 0, 0, 0, 0, 0, 0, 0, 0, 0, 0, 0, 0, 0, 0, 0, 0, 0, 0, 0, 0, 0, 0, 0, 0, 0, 0, 0, 0, 0, 1,
    1, 0, 0, 0, 0, 0, 0, 1, 0, 0, 0, 0, 0, 1, 1, 1, 0, 1, 1, 1, 1, 1, 1, 0, 1, 1, 1, 1, 1, 1, 0, 1,
    1, 1, 1, 0, 1, 1, 1, 1, 1, 1, 3, 1, 1, 1, 0, 0, 0, 0, 0, 0, 1, 0, 0, 0, 0, 0, 0, 0, 0, 0, 0, 1,
    1, 0, 0, 0, 0, 0, 0, 1, 0, 0, 0, 0, 0, 1, 0, 0, 0, 0, 0, 0, 1, 0, 0, 0, 0, 0, 0, 0, 0, 0, 0, 1,
    1, 0, 0, 0, 0, 0, 0, 1, 0, 0, 0, 0, 0, 1, 0, 0, 0, 0, 0, 0, 1, 0, 0, 1, 0, 0, 0, 1, 0, 0, 0, 1,
    1, 0, 0, 1, 0, 0, 0, 0, 0, 0, 0, 0, 0, 0, 0, 0, 0, 0, 0, 0, 0, 0, 0, 0, 0, 0, 0, 0, 0, 0, 0, 1,
    1, 0, 0, 0, 0, 0, 0, 1, 0, 0, 0, 0, 0, 1, 0, 0, 0, 0, 0, 0, 1, 0, 0, 0, 0, 0, 0, 0, 0, 0, 0, 1,
    1, 0, 0, 0, 0, 0, 0, 1, 1, 1, 3, 1, 1, 1, 0, 0, 0, 0, 0, 0, 1, 1, 1, 1, 1, 1, 0, 1, 1, 1, 1, 1,
    1, 1, 1, 3, 1, 1, 1, 1, 0, 0, 0, 0, 0, 1, 0, 0, 0, 0, 0, 0, 1, 0, 0, 0, 0, 0, 0, 0, 0, 0, 0, 1,
    1, 0, 0, 0, 0, 0, 0, 1, 0, 0, 0, 0, 0, 1, 0, 0, 0, 0, 0, 0, 1, 0, 0, 0, 0, 0, 0, 0, 0, 0, 0, 1,
    1, 0, 0, 0, 0, 0, 0, 0, 0, 0, 0, 0, 0, 0, 0, 0, 0, 0, 0, 0, 0, 0, 0, 0, 0, 0, 0, 0, 0, 0, 0, 1,
    1, 0, 0, 0, 0, 0, 0, 1, 0, 0, 0, 0, 0, 1, 0, 0, 0, 0, 0, 0, 1, 0, 0, 0, 0, 0, 0, 0, 0, 0, 2, 1,
    1, 0, 0, 0, 0, 0, 0, 1, 0, 0, 0, 0, 0, 1, 0, 0, 0, 0, 0, 0, 1, 0, 0, 0, 0, 0, 0, 0, 0, 0, 0, 1,
    1, 1, 1, 1, 1, 1, 1, 1, 1, 1, 1, 1, 1, 1, 1, 1, 1, 1, 1, 1, 1, 1, 1, 1, 1, 1, 1, 1, 1, 1, 1, 1,
];

/// The screen width of the title and end screens, in pixels.
pub const SCREEN_WIDTH: u32 = 1920;

/// Whether the player and the entity may stand on a maze cell: floor (0) or
/// the exit (2).
pub open spec fn is_walkable(cell: u8) -> bool {
    cell == 0 || cell == 2
}

/// Whether the cell at column `cx`, row `cy` of the maze may be stood on;
/// outside the maze it may not.
pub fn cell_walkable(map: &[u8], cx: usize, cy: usize) -> (r: bool)
    requires
        map@.len() == MAP_WIDTH * MAP_HEIGHT,
    ensures
        r == (cx < MAP_WIDTH && cy < MAP_HEIGHT && is_walkable(map@[cy * 32 + cx])),
{
    if cx >= MAP_WIDTH || cy >= MAP_HEIGHT {
        return false;
    }
    map[cy * MAP_WIDTH + cx] == 0 || map[cy * MAP_WIDTH + cx] == 2
}

/// Whether the cell at column `cx`, row `cy` is the exit.
pub fn is_exit(map: &[u8], cx: usize, cy: usize) -> (r: bool)
    requires
        map@.len() == MAP_WIDTH * MAP_HEIGHT,
    ensures
        r == (cx < MAP_WIDTH && cy < MAP_HEIGHT && map@[cy * 32 + cx] == 2),
{
    cx < MAP_WIDTH && cy < MAP_HEIGHT && map[cy * MAP_WIDTH + cx] == 2
}

/// The capacity of the mouse byte queue.
pub const RING_SIZE: usize = 256;

/// A queue of the bytes that the mouse sends, filled by the interrupt handler
/// and drained by the game. It holds at most 255 bytes; a byte that arrives
/// when it is full is dropped.
pub struct MouseRing {
    buf: Vec<u8>,
    head: usize,
    tail: usize,
}

/// A position `k` places on from the start of the buffer, going round once.
pub open spec fn wrap(k: int) -> int {
    if k >= RING_SIZE {
        k - RING_SIZE
    } else {
        k
    }
}

/// The next position after `x`, going round.
proof fn lemma_next_position(x: usize)
    requires
        x < RING_SIZE,
    ensures
        (x + 1) % (RING_SIZE as int) == wrap(x + 1),
{
    if x + 1 < RING_SIZE {
        vstd::arithmetic::div_mod::lemma_small_mod((x + 1) as nat, RING_SIZE as nat);
    } else {
        assert(x + 1 == RING_SIZE);
        vstd::arithmetic::div_mod::lemma_mod_self_0(RING_SIZE as int);
    }
}

/// The queue after `byte` arrives: kept at the back while fewer than 255
/// bytes wait, dropped otherwise.
pub open spec fn pushed(q: Seq<u8>, byte: u8) -> Seq<u8> {
    if q.len() < RING_SIZE - 1 {
        q.push(byte)
    } else {
        q
    }
}

/// The queue after `bytes` arrive in order.
pub open spec fn pushed_all(q: Seq<u8>, bytes: Seq<u8>) -> Seq<u8>
    decreases bytes.len(),
{
    if bytes.len() == 0 {
        q
    } else {
        pushed_all(pushed(q, bytes[0]), bytes.drop_first())
    }
}

/// Law: of a run of bytes that arrive at a queue holding `q`, the first ones,
/// as many as there is room for (255 in all), are queued in order after `q`,
/// and the rest are dropped.
pub proof fn law_push_run(q: Seq<u8>, bytes: Seq<u8>)
    requires
        q.len() < RING_SIZE,
    ensures
        pushed_all(q, bytes) == q + bytes.take(
            if bytes.len() <= RING_SIZE - 1 - q.len() {
                bytes.len() as int
            } else {
                RING_SIZE - 1 - q.len()
            },
        ),
    decreases bytes.len(),
{
    if bytes.len() == 0 {
        assert(q + bytes.take(0) =~= q);
    } else {
        let rest = bytes.drop_first();
        law_push_run(pushed(q, bytes[0]), rest);
        if q.len() < RING_SIZE - 1 {
            let n = if bytes.len() <= RING_SIZE - 1 - q.len() {
                bytes.len() as int
            } else {
                RING_SIZE - 1 - q.len()
            };
            assert(q.push(bytes[0]) + rest.take(n - 1) =~= q + bytes.take(n));
        } else {
            assert(q + rest.take(0) =~= q + bytes.take(0));
        }
    }
}

impl MouseRing {
    pub closed spec fn wf(&self) -> bool {
        self.buf@.len() == RING_SIZE && self.head < RING_SIZE && self.tail < RING_SIZE
    }

    /// The number of bytes queued.
    closed spec fn count(&self) -> int {
        if self.head >= self.tail {
            self.head - self.tail
        } else {
            self.head + RING_SIZE - self.tail
        }
    }

    /// The queued bytes, oldest first.
    pub closed spec fn view(&self) -> Seq<u8> {
        Seq::new(self.count() as nat, |i: int| self.buf@[wrap(self.tail + i)])
    }

    /// An empty queue.
    pub fn new() -> (r: MouseRing)
        ensures
            r.wf(),
            r@.len() == 0,
    {
        MouseRing { buf: vec![0u8; RING_SIZE], head: 0, tail: 0 }
    }

    /// Adds `byte` at the back, unless 255 bytes are queued.
    pub fn push(&mut self, byte: u8)
        requires
            old(self).wf(),
        ensures
            final(self).wf(),
            final(self)@ == pushed(old(self)@, byte),
            old(self)@.len() < RING_SIZE - 1 ==> final(self)@ == old(self)@.push(byte),
            old(self)@.len() >= RING_SIZE - 1 ==> final(self)@ == old(self)@,
            old(self)@.len() < RING_SIZE,
    {
        proof {
            lemma_next_position(self.head);
        }
        let next = (self.head + 1) % RING_SIZE;
        if next != self.tail {
            let ghost before = self@;
            self.buf.set(self.head, byte);
            self.head = next;
            assert forall|i: int| 0 <= i < before.len() implies self@[i] == before[i] by {
                assert(wrap(self.tail + i) != old(self).head);
            }
            assert(self@ =~= before.push(byte));
        }
    }

    /// Takes the byte at the front.
    pub fn pop(&mut self) -> (r: Option<u8>)
        requires
            old(self).wf(),
        ensures
            final(self).wf(),
            old(self)@.len() == 0 ==> r is None && final(self)@ == old(self)@,
            old(self)@.len() > 0 ==> r == Some(old(self)@[0]) && final(self)@ == old(self)@.drop_first(),
    {
        if self.head != self.tail {
            let b = self.buf[self.tail];
            proof {
                lemma_next_position(self.tail);
            }
            let ghost before = self@;
            self.tail = (self.tail + 1) % RING_SIZE;
            assert forall|i: int| 0 <= i < before.len() - 1 implies self@[i] == before[i + 1] by {
                assert(wrap(self.tail + i) == wrap(old(self).tail + i + 1));
            }
            assert(self@ =~= before.drop_first());
            Some(b)
        } else {
            None
        }
    }
}

/// Where the decoder is within a three-byte mouse packet.
#[derive(Clone, Copy, PartialEq, Eq, Structural)]
pub enum PacketStage {
    /// Waiting for a first byte (one with bit 3 set).
    First,
    /// Waiting for the horizontal movement byte.
    Second,
    /// Waiting for the vertical movement byte.
    Third,
}

/// Reassembles the bytes of the mouse into packets.
pub struct MouseDecoder {
    pub stage: PacketStage,
    pub packet: [u8; 3],
}

/// The signed horizontal movement of a packet: the movement byte, less 256
/// when the sign bit (bit 4) of the first byte is set.
pub open spec fn packet_dx(flags: u8, x: u8) -> int {
    if flags & 0x10 != 0 {
        x - 256
    } else {
        x as int
    }
}

impl MouseDecoder {
    /// A decoder waiting for the first byte of a packet.
    pub fn new() -> (d: MouseDecoder)
        ensures
            d.stage == PacketStage::First,
            d.packet@ == seq![0u8, 0u8, 0u8],
    {
        let d = MouseDecoder { stage: PacketStage::First, packet: [0, 0, 0] };
        assert(d.packet@ =~= seq![0u8, 0u8, 0u8]);
        d
    }

    /// Takes one byte; when it completes a packet, returns the packet's
    /// horizontal movement.
    pub fn feed(&mut self, byte: u8) -> (dx: Option<i32>)
        ensures
            match old(self).stage {
                PacketStage::First => dx is None && if byte & 0x08 != 0 {
                    final(self).stage == PacketStage::Second && final(self).packet@ == old(self).packet@.update(0, byte)
                } else {
                    final(self).stage == PacketStage::First && final(self).packet@ == old(self).packet@
                },
                PacketStage::Second => dx is None && final(self).stage == PacketStage::Third
                    && final(self).packet@ == old(self).packet@.update(1, byte),
                PacketStage::Third => final(self).stage == PacketStage::First
                    && final(self).packet@ == old(self).packet@.update(2, byte) && dx == Some(
                    packet_dx(old(self).packet@[0], old(self).packet@[1]) as i32,
                ),
            },
    {
        match self.stage {
            PacketStage::First => {
                if byte & 0x08 != 0 {
                    self.packet[0] = byte;
                    self.stage = PacketStage::Second;
                }
                None
            },
            PacketStage::Second => {
                self.packet[1] = byte;
                self.stage = PacketStage::Third;
                None
            },
            PacketStage::Third => {
                self.packet[2] = byte;
                self.stage = PacketStage::First;
                let flags = self.packet[0];
                let mut dx = self.packet[1] as i32;
                if (flags & 0x10) != 0 {
                    dx = dx - 256;
                }
                Some(dx)
            },
        }
    }
}

/// The left edge of a line of `len` glyphs centred on the screen.
pub fn centered_x(len: u32) -> (x: u32)
    requires
        len * 16 <= SCREEN_WIDTH,
    ensures
        x == (SCREEN_WIDTH - len * 16) / 2,
        x + len * 16 + x <= SCREEN_WIDTH,
{
    (SCREEN_WIDTH - len * 16) / 2
}

/// What a key does on the title screen: Enter starts the game (`true`), `q`
/// or `Q` leaves it (`false`), any other key does nothing.
pub fn title_choice(ascii: u8) -> (r: Option<bool>)
    ensures
        r == if ascii == 10 {
            Some(true)
        } else if ascii == 0x71 || ascii == 0x51 {
            Some(false)
        } else {
            None::<bool>
        },
{
    if ascii == 10 {
        return Some(true);
    }
    if ascii == 0x71 || ascii == 0x51 {
        return Some(false);
    }
    None
}

/// Whether a key leaves an end screen: `q`, `Q` or Enter.
pub fn leaves_end_screen(ascii: u8) -> (r: bool)
    ensures
        r == (ascii == 0x71 || ascii == 0x51 || ascii == 10),
{
    ascii == 0x71 || ascii == 0x51 || ascii == 10
}

} // verus!
