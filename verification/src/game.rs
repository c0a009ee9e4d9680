//! A saved game: the maze, the difficulty it was generated with, the cursor
//! position and the move history, together with a byte codec for carrying a
//! snapshot through storage.  Encoding pins down every byte; decoding accepts
//! exactly the encodings of well-formed snapshots and reproduces the state
//! they store, so a snapshot round-trips losslessly — and a state restored
//! with the same field values behaves identically.

use vstd::prelude::*;
use crate::maze::{Difficulty, Direction, Maze, Position};

verus! {

/// Everything a session needs to resume a game.
pub struct GameState {
    pub maze: Maze,
    pub difficulty: Difficulty,
    pub pos: Position,
    pub moves: Vec<(Position, Option<Direction>)>,
}

impl GameState {
    /// Two snapshots hold the same state: the same walls, dimensions,
    /// entrance and exit, the same difficulty, cursor and history.
    pub open spec fn same_state(self, other: GameState) -> bool {
        &&& self.maze.spec_walls() == other.maze.spec_walls()
        &&& self.maze.width == other.maze.width
        &&& self.maze.height == other.maze.height
        &&& self.maze.spec_enter() == other.maze.spec_enter()
        &&& self.maze.spec_exit() == other.maze.spec_exit()
        &&& self.maze.spec_size() == other.maze.spec_size()
        &&& self.difficulty == other.difficulty
        &&& self.pos == other.pos
        &&& self.moves@ == other.moves@
    }
}

/// The two big-endian bytes of a `u16`.
pub open spec fn enc16(v: u16) -> Seq<u8> {
    seq![(v / 256) as u8, (v % 256) as u8]
}

/// Four bytes for a length below `2^32`.
pub open spec fn enc32(v: int) -> Seq<u8> {
    enc16((v / 65536) as u16) + enc16((v % 65536) as u16)
}

/// The wall list, four bytes per pair.
pub open spec fn enc_walls(ws: Seq<(u16, u16)>) -> Seq<u8>
    decreases ws.len(),
{
    if ws.len() == 0 {
        Seq::empty()
    } else {
        enc_walls(ws.drop_last()) + enc16(ws.last().0) + enc16(ws.last().1)
    }
}

/// The numeric tag of a history entry's direction.
pub open spec fn dir_tag(d: Option<Direction>) -> u16 {
    match d {
        Option::None => 0,
        Option::Some(Direction::Left) => 1,
        Option::Some(Direction::Right) => 2,
        Option::Some(Direction::Up) => 3,
        Option::Some(Direction::Down) => 4,
    }
}

/// The numeric tag of a difficulty.
pub open spec fn diff_tag(d: Difficulty) -> u16 {
    match d {
        Difficulty::Normal => 0,
        Difficulty::Hard => 1,
    }
}

/// The move history, six bytes per entry.
pub open spec fn enc_moves(ms: Seq<(Position, Option<Direction>)>) -> Seq<u8>
    decreases ms.len(),
{
    if ms.len() == 0 {
        Seq::empty()
    } else {
        enc_moves(ms.drop_last()) + enc16(ms.last().0.x) + enc16(ms.last().0.y) + enc16(
            dir_tag(ms.last().1),
        )
    }
}

/// The snapshot encoding: the maze header, the wall list, the difficulty,
/// the cursor and the move history, in that order.
pub open spec fn spec_encoding(gs: GameState) -> Seq<u8> {
    enc16(gs.maze.width) + enc16(gs.maze.height) + enc16(gs.maze.spec_enter()) + enc16(
        gs.maze.spec_exit(),
    ) + enc16(gs.maze.spec_size()) + enc32(gs.maze.spec_walls().len() as int) + enc_walls(
        gs.maze.spec_walls(),
    ) + enc16(diff_tag(gs.difficulty)) + enc16(gs.pos.x) + enc16(gs.pos.y) + enc32(
        gs.moves@.len() as int,
    ) + enc_moves(gs.moves@)
}

/// The `u16` stored big-endian at offset `i` of `b`.
pub open spec fn u16_at(b: Seq<u8>, i: int) -> u16 {
    ((b[i] as int) * 256 + (b[i + 1] as int)) as u16
}

/// What a successful decode guarantees: the byte length matches the decoded
/// lists, and every field of the result is the value stored at its offset.
pub open spec fn decode_post(b: Seq<u8>, gs: GameState) -> bool {
    let wl = gs.maze.spec_walls().len() as int;
    let ml = gs.moves@.len() as int;
    &&& b.len() == 24 + 4 * wl + 6 * ml
    &&& gs.maze.width == u16_at(b, 0)
    &&& gs.maze.height == u16_at(b, 2)
    &&& gs.maze.spec_enter() == u16_at(b, 4)
    &&& gs.maze.spec_exit() == u16_at(b, 6)
    &&& gs.maze.spec_size() == u16_at(b, 8)
    &&& wl == u16_at(b, 10) * 65536 + u16_at(b, 12)
    &&& forall|k: int|
        0 <= k < wl ==> (#[trigger] gs.maze.spec_walls()[k]).0 == u16_at(b, 14 + 4 * k)
            && gs.maze.spec_walls()[k].1 == u16_at(b, 16 + 4 * k)
    &&& diff_tag(gs.difficulty) == u16_at(b, 14 + 4 * wl)
    &&& gs.pos.x == u16_at(b, 16 + 4 * wl)
    &&& gs.pos.y == u16_at(b, 18 + 4 * wl)
    &&& ml == u16_at(b, 20 + 4 * wl) * 65536 + u16_at(b, 22 + 4 * wl)
    &&& forall|k: int|
        0 <= k < ml ==> (#[trigger] gs.moves@[k]).0.x == u16_at(b, 24 + 4 * wl + 6 * k)
            && gs.moves@[k].0.y == u16_at(b, 26 + 4 * wl + 6 * k) && dir_tag(gs.moves@[k].1)
            == u16_at(b, 28 + 4 * wl + 6 * k)
}

proof fn lemma_enc_walls_len(ws: Seq<(u16, u16)>)
    ensures
        enc_walls(ws).len() == 4 * ws.len(),
    decreases ws.len(),
{
    if ws.len() > 0 {
        lemma_enc_walls_len(ws.drop_last());
    }
}

proof fn lemma_enc_moves_len(ms: Seq<(Position, Option<Direction>)>)
    ensures
        enc_moves(ms).len() == 6 * ms.len(),
    decreases ms.len(),
{
    if ms.len() > 0 {
        lemma_enc_moves_len(ms.drop_last());
    }
}

proof fn lemma_enc_walls_at(ws: Seq<(u16, u16)>, k: int)
    requires
        0 <= k < ws.len(),
    ensures
        enc_walls(ws).len() == 4 * ws.len(),
        enc_walls(ws)[4 * k] == (ws[k].0 / 256) as u8,
        enc_walls(ws)[4 * k + 1] == (ws[k].0 % 256) as u8,
        enc_walls(ws)[4 * k + 2] == (ws[k].1 / 256) as u8,
        enc_walls(ws)[4 * k + 3] == (ws[k].1 % 256) as u8,
    decreases ws.len(),
{
    lemma_enc_walls_len(ws);
    lemma_enc_walls_len(ws.drop_last());
    if k < ws.len() - 1 {
        lemma_enc_walls_at(ws.drop_last(), k);
    }
}

proof fn lemma_enc_moves_at(ms: Seq<(Position, Option<Direction>)>, k: int)
    requires
        0 <= k < ms.len(),
    ensures
        enc_moves(ms).len() == 6 * ms.len(),
        enc_moves(ms)[6 * k] == (ms[k].0.x / 256) as u8,
        enc_moves(ms)[6 * k + 1] == (ms[k].0.x % 256) as u8,
        enc_moves(ms)[6 * k + 2] == (ms[k].0.y / 256) as u8,
        enc_moves(ms)[6 * k + 3] == (ms[k].0.y % 256) as u8,
        enc_moves(ms)[6 * k + 4] == (dir_tag(ms[k].1) / 256) as u8,
        enc_moves(ms)[6 * k + 5] == (dir_tag(ms[k].1) % 256) as u8,
    decreases ms.len(),
{
    lemma_enc_moves_len(ms);
    lemma_enc_moves_len(ms.drop_last());
    if k < ms.len() - 1 {
        lemma_enc_moves_at(ms.drop_last(), k);
    }
}

/// Reading two big-endian bytes of a `u16` gives the value back.
proof fn lemma_u16_at_enc(b: Seq<u8>, i: int, v: u16)
    requires
        0 <= i,
        i + 2 <= b.len(),
        b[i] == (v / 256) as u8,
        b[i + 1] == (v % 256) as u8,
    ensures
        u16_at(b, i) == v,
{
    assert(v == 256 * (v as int / 256) + v as int % 256) by (nonlinear_arith);
    assert(v as int / 256 <= 255) by (nonlinear_arith);
}

/// The encoding of a snapshot satisfies every decoding fact about that same
/// snapshot: each field sits at its offset.
proof fn lemma_encoding_decodes(gs: GameState)
    requires
        gs.maze.spec_walls().len() < 0x1_0000_0000,
        gs.moves@.len() < 0x1_0000_0000,
    ensures
        decode_post(spec_encoding(gs), gs),
{
    let b = spec_encoding(gs);
    let ws = gs.maze.spec_walls();
    let ms = gs.moves@;
    let wl = ws.len() as int;
    let ml = ms.len() as int;
    lemma_enc_walls_len(ws);
    lemma_enc_moves_len(ms);
    assert(b.len() == 24 + 4 * wl + 6 * ml);
    lemma_u16_at_enc(b, 0, gs.maze.width);
    lemma_u16_at_enc(b, 2, gs.maze.height);
    lemma_u16_at_enc(b, 4, gs.maze.spec_enter());
    lemma_u16_at_enc(b, 6, gs.maze.spec_exit());
    lemma_u16_at_enc(b, 8, gs.maze.spec_size());
    let whi = (wl / 65536) as u16;
    let wlo = (wl % 65536) as u16;
    lemma_u16_at_enc(b, 10, whi);
    lemma_u16_at_enc(b, 12, wlo);
    assert(wl == whi * 65536 + wlo) by (nonlinear_arith)
        requires
            0 <= wl < 0x1_0000_0000,
            whi == (wl / 65536) as u16,
            wlo == (wl % 65536) as u16,
    ;
    assert forall|k: int| 0 <= k < wl implies (#[trigger] ws[k]).0 == u16_at(b, 14 + 4 * k)
        && ws[k].1 == u16_at(b, 16 + 4 * k) by {
        lemma_enc_walls_at(ws, k);
        assert(b[14 + 4 * k] == enc_walls(ws)[4 * k]);
        assert(b[15 + 4 * k] == enc_walls(ws)[4 * k + 1]);
        assert(b[16 + 4 * k] == enc_walls(ws)[4 * k + 2]);
        assert(b[17 + 4 * k] == enc_walls(ws)[4 * k + 3]);
        lemma_u16_at_enc(b, 14 + 4 * k, ws[k].0);
        lemma_u16_at_enc(b, 16 + 4 * k, ws[k].1);
    }
    lemma_u16_at_enc(b, 14 + 4 * wl, diff_tag(gs.difficulty));
    lemma_u16_at_enc(b, 16 + 4 * wl, gs.pos.x);
    lemma_u16_at_enc(b, 18 + 4 * wl, gs.pos.y);
    let mhi = (ml / 65536) as u16;
    let mlo = (ml % 65536) as u16;
    lemma_u16_at_enc(b, 20 + 4 * wl, mhi);
    lemma_u16_at_enc(b, 22 + 4 * wl, mlo);
    assert(ml == mhi * 65536 + mlo) by (nonlinear_arith)
        requires
            0 <= ml < 0x1_0000_0000,
            mhi == (ml / 65536) as u16,
            mlo == (ml % 65536) as u16,
    ;
    assert forall|k: int| 0 <= k < ml implies (#[trigger] ms[k]).0.x == u16_at(
        b,
        24 + 4 * wl + 6 * k,
    ) && ms[k].0.y == u16_at(b, 26 + 4 * wl + 6 * k) && dir_tag(ms[k].1) == u16_at(
        b,
        28 + 4 * wl + 6 * k,
    ) by {
        lemma_enc_moves_at(ms, k);
        assert(b[24 + 4 * wl + 6 * k] == enc_moves(ms)[6 * k]);
        assert(b[25 + 4 * wl + 6 * k] == enc_moves(ms)[6 * k + 1]);
        assert(b[26 + 4 * wl + 6 * k] == enc_moves(ms)[6 * k + 2]);
        assert(b[27 + 4 * wl + 6 * k] == enc_moves(ms)[6 * k + 3]);
        assert(b[28 + 4 * wl + 6 * k] == enc_moves(ms)[6 * k + 4]);
        assert(b[29 + 4 * wl + 6 * k] == enc_moves(ms)[6 * k + 5]);
        lemma_u16_at_enc(b, 24 + 4 * wl + 6 * k, ms[k].0.x);
        lemma_u16_at_enc(b, 26 + 4 * wl + 6 * k, ms[k].0.y);
        lemma_u16_at_enc(b, 28 + 4 * wl + 6 * k, dir_tag(ms[k].1));
    }
}

/// Law: the snapshot encoding round-trips.  Whatever `decode` accepts for the
/// bytes that `encode` produced from a state holds the same state — the same
/// walls, dimensions, difficulty, cursor and history — and so, with
/// [`lemma_snapshot_restores`], exposes identical movement queries.
pub proof fn lemma_round_trip(gs: GameState, bytes: Seq<u8>, gs2: GameState)
    requires
        gs.maze.spec_walls().len() < 0x1_0000_0000,
        gs.moves@.len() < 0x1_0000_0000,
        bytes == spec_encoding(gs),
        decode_post(bytes, gs2),
    ensures
        gs2.same_state(gs),
{
    lemma_encoding_decodes(gs);
    let wl1 = gs.maze.spec_walls().len() as int;
    let wl2 = gs2.maze.spec_walls().len() as int;
    let ml1 = gs.moves@.len() as int;
    let ml2 = gs2.moves@.len() as int;
    assert(wl1 == wl2 && ml1 == ml2) by (nonlinear_arith)
        requires
            wl1 >= 0,
            wl2 >= 0,
            ml1 >= 0,
            ml2 >= 0,
            wl1 == u16_at(bytes, 10) * 65536 + u16_at(bytes, 12),
            wl2 == u16_at(bytes, 10) * 65536 + u16_at(bytes, 12),
            24 + 4 * wl1 + 6 * ml1 == bytes.len(),
            24 + 4 * wl2 + 6 * ml2 == bytes.len(),
    ;
    assert(gs2.maze.spec_walls() =~= gs.maze.spec_walls());
    assert forall|k: int| 0 <= k < ml1 implies gs2.moves@[k] == gs.moves@[k] by {
        assert((gs.moves@[k]).0.x == u16_at(bytes, 24 + 4 * wl1 + 6 * k));
        assert((gs2.moves@[k]).0.x == u16_at(bytes, 24 + 4 * wl1 + 6 * k));
        assert(dir_tag(gs2.moves@[k].1) == dir_tag(gs.moves@[k].1));
        lemma_dir_tag_injective(gs.moves@[k].1, gs2.moves@[k].1);
    }
    assert(gs2.moves@ =~= gs.moves@);
    lemma_diff_tag_injective(gs.difficulty, gs2.difficulty);
}

/// Append a `u16` big-endian.
fn push_u16(out: &mut Vec<u8>, v: u16)
    ensures
        final(out)@ == old(out)@ + enc16(v),
{
    out.push((v / 256) as u8);
    out.push((v % 256) as u8);
    proof {
        assert(out@ =~= old(out)@ + enc16(v));
    }
}

/// Read the `u16` stored big-endian at offset `i`, if it fits.
fn read_u16(bytes: &Vec<u8>, i: usize) -> (r: Option<u16>)
    ensures
        r matches Some(v) ==> i + 2 <= bytes@.len() && v == u16_at(bytes@, i as int),
        r is None ==> i + 2 > bytes@.len(),
{
    if bytes.len() >= 2 && i <= bytes.len() - 2 {
        let v = (bytes[i] as u16) * 256 + (bytes[i + 1] as u16);
        Some(v)
    } else {
        None
    }
}

impl GameState {
    /// Serialize the snapshot to bytes; [`spec_encoding`] pins every byte
    /// down.
    pub fn encode(&self) -> (r: Vec<u8>)
        requires
            self.maze.spec_walls().len() < 0x1_0000_0000,
            self.moves@.len() < 0x1_0000_0000,
        ensures
            r@ == spec_encoding(*self),
    {
        let mut out: Vec<u8> = Vec::new();
        push_u16(&mut out, self.maze.width);
        push_u16(&mut out, self.maze.height);
        push_u16(&mut out, self.maze.enter);
        push_u16(&mut out, self.maze.exit);
        push_u16(&mut out, self.maze.size);
        let wl = self.maze.walls.len();
        push_u16(&mut out, (wl / 65536) as u16);
        push_u16(&mut out, (wl % 65536) as u16);
        let ghost header = out@;
        let mut k: usize = 0;
        proof {
            assert(enc_walls(self.maze.spec_walls().take(0)) =~= Seq::<u8>::empty());
            assert(header + Seq::<u8>::empty() =~= header);
        }
        while k < self.maze.walls.len()
            invariant
                k <= self.maze.spec_walls().len(),
                out@ == header + enc_walls(self.maze.spec_walls().take(k as int)),
            decreases self.maze.spec_walls().len() - k,
        {
            let wall = self.maze.walls[k];
            push_u16(&mut out, wall.0);
            push_u16(&mut out, wall.1);
            proof {
                let ws = self.maze.spec_walls();
                assert(ws.take(k + 1).drop_last() =~= ws.take(k as int));
                assert(ws.take(k + 1).last() == ws[k as int]);
                assert(header + enc_walls(ws.take(k as int)) + enc16(wall.0) + enc16(wall.1)
                    =~= header + enc_walls(ws.take(k + 1)));
            }
            k = k + 1;
        }
        proof {
            assert(self.maze.spec_walls().take(self.maze.spec_walls().len() as int)
                =~= self.maze.spec_walls());
        }
        let dt: u16 = match self.difficulty {
            Difficulty::Normal => 0,
            Difficulty::Hard => 1,
        };
        push_u16(&mut out, dt);
        push_u16(&mut out, self.pos.x);
        push_u16(&mut out, self.pos.y);
        let ml = self.moves.len();
        push_u16(&mut out, (ml / 65536) as u16);
        push_u16(&mut out, (ml % 65536) as u16);
        let ghost mid = out@;
        let mut k: usize = 0;
        proof {
            assert(enc_moves(self.moves@.take(0)) =~= Seq::<u8>::empty());
            assert(mid + Seq::<u8>::empty() =~= mid);
        }
        while k < self.moves.len()
            invariant
                k <= self.moves@.len(),
                out@ == mid + enc_moves(self.moves@.take(k as int)),
            decreases self.moves@.len() - k,
        {
            let entry = self.moves[k];
            let tag: u16 = match entry.1 {
                Option::None => 0,
                Option::Some(Direction::Left) => 1,
                Option::Some(Direction::Right) => 2,
                Option::Some(Direction::Up) => 3,
                Option::Some(Direction::Down) => 4,
            };
            push_u16(&mut out, entry.0.x);
            push_u16(&mut out, entry.0.y);
            push_u16(&mut out, tag);
            proof {
                let ms = self.moves@;
                assert(ms.take(k + 1).drop_last() =~= ms.take(k as int));
                assert(ms.take(k + 1).last() == ms[k as int]);
                assert(tag == dir_tag(ms[k as int].1));
                assert(mid + enc_moves(ms.take(k as int)) + enc16(entry.0.x) + enc16(entry.0.y)
                    + enc16(tag) =~= mid + enc_moves(ms.take(k + 1)));
            }
            k = k + 1;
        }
        proof {
            assert(self.moves@.take(self.moves@.len() as int) =~= self.moves@);
            assert(out@ =~= spec_encoding(*self));
        }
        out
    }

    /// Reconstruct a snapshot from bytes.  Exactly the encodings of
    /// well-formed snapshots are accepted, and every field of the result is
    /// the value stored at its offset, so a decoded snapshot holds the state
    /// the bytes describe and nothing else.
    pub fn decode(bytes: &Vec<u8>) -> (r: Option<GameState>)
        ensures
            r matches Some(gs) ==> decode_post(bytes@, gs) && gs.maze.wf(),
            spec_valid_encoding(bytes@) ==> r is Some,
    {
        let n = bytes.len();
        proof {
            assert(bytes@.len() <= usize::MAX);
            lemma_valid_unpack(bytes@);
        }
        let width = match read_u16(bytes, 0) {
            Some(v) => v,
            None => { return None },
        };
        let height = match read_u16(bytes, 2) {
            Some(v) => v,
            None => { return None },
        };
        let enter = match read_u16(bytes, 4) {
            Some(v) => v,
            None => { return None },
        };
        let exit = match read_u16(bytes, 6) {
            Some(v) => v,
            None => { return None },
        };
        let size = match read_u16(bytes, 8) {
            Some(v) => v,
            None => { return None },
        };
        let whi = match read_u16(bytes, 10) {
            Some(v) => v,
            None => { return None },
        };
        let wlo = match read_u16(bytes, 12) {
            Some(v) => v,
            None => { return None },
        };
        if width < 1 || height < 1 {
            return None;
        }
        proof {
            assert((width as int) * (height as int) <= 65535 * 65535) by (nonlinear_arith)
                requires
                    width <= 65535,
                    height <= 65535,
            ;
        }
        if (width as u32) * (height as u32) > u16::MAX as u32 {
            return None;
        }
        if size as u32 != (width as u32) * (height as u32) {
            return None;
        }
        if enter != 0 || (exit as u32) + 1 != size as u32 {
            return None;
        }
        let wl = ((whi as u32) * 65536 + (wlo as u32)) as usize;
        let mut walls: Vec<(u16, u16)> = Vec::new();
        let mut idx: usize = 14;
        let mut k: usize = 0;
        while k < wl
            invariant
                bytes@.len() <= usize::MAX,
                k <= wl,
                idx == 14 + 4 * k,
                wl < 0x1_0000_0000,
                walls@.len() == k,
                size >= 1,
                wl == u16_at(bytes@, 10) * 65536 + u16_at(bytes@, 12),
                exit == u16_at(bytes@, 6),
                exit as int + 1 == size,
                spec_valid_encoding(bytes@) ==> exists|gs: GameState|
                    encodable(gs) && #[trigger] decode_post(bytes@, gs),
                forall|j: int|
                    0 <= j < k ==> (#[trigger] walls@[j]).0 == u16_at(bytes@, 14 + 4 * j)
                        && walls@[j].1 == u16_at(bytes@, 16 + 4 * j) && walls@[j].0 <= size - 1
                        && walls@[j].1 <= size - 1,
            decreases wl - k,
        {
            let ghost contra = spec_valid_encoding(bytes@);
            proof {
                if contra {
                    let gs = choose|gs: GameState| encodable(gs) && decode_post(bytes@, gs);
                    assert(gs.maze.spec_walls().len() == wl);
                    assert(bytes@.len() >= 14 + 4 * wl);
                    assert((gs.maze.spec_walls()[k as int]).0 == u16_at(bytes@, 14 + 4 * k));
                    assert(gs.maze.spec_walls()[k as int].0 <= gs.maze.spec_exit());
                }
            }
            let a = match read_u16(bytes, idx) {
                Some(v) => v,
                None => { return None },
            };
            proof {
                assert(idx + 2 <= bytes@.len());
            }
            let b = match read_u16(bytes, idx + 2) {
                Some(v) => v,
                None => { return None },
            };
            if a > size - 1 || b > size - 1 {
                return None;
            }
            walls.push((a, b));
            idx = idx + 4;
            k = k + 1;
        }
        proof {
            lemma_valid_unpack(bytes@);
        }
        let dt = match read_u16(bytes, idx) {
            Some(v) => v,
            None => { return None },
        };
        let difficulty = if dt == 0 {
            Difficulty::Normal
        } else if dt == 1 {
            Difficulty::Hard
        } else {
            return None;
        };
        let px = match read_u16(bytes, idx + 2) {
            Some(v) => v,
            None => { return None },
        };
        let py = match read_u16(bytes, idx + 4) {
            Some(v) => v,
            None => { return None },
        };
        let mhi = match read_u16(bytes, idx + 6) {
            Some(v) => v,
            None => { return None },
        };
        let mlo = match read_u16(bytes, idx + 8) {
            Some(v) => v,
            None => { return None },
        };
        let ghost wl_g = wl as int;
        let ml = ((mhi as u32) * 65536 + (mlo as u32)) as usize;
        let mut moves: Vec<(Position, Option<Direction>)> = Vec::new();
        idx = idx + 10;
        let mut k: usize = 0;
        while k < ml
            invariant
                bytes@.len() <= usize::MAX,
                k <= ml,
                ml < 0x1_0000_0000,
                wl_g >= 0,
                idx == 24 + 4 * wl_g + 6 * k,
                moves@.len() == k,
                wl_g == u16_at(bytes@, 10) * 65536 + u16_at(bytes@, 12),
                ml == u16_at(bytes@, 20 + 4 * wl_g) * 65536 + u16_at(bytes@, 22 + 4 * wl_g),
                spec_valid_encoding(bytes@) ==> exists|gs: GameState|
                    encodable(gs) && #[trigger] decode_post(bytes@, gs),
                forall|j: int|
                    0 <= j < k ==> (#[trigger] moves@[j]).0.x == u16_at(bytes@, 24 + 4 * wl_g + 6 * j)
                        && moves@[j].0.y == u16_at(bytes@, 26 + 4 * wl_g + 6 * j) && dir_tag(
                        moves@[j].1,
                    ) == u16_at(bytes@, 28 + 4 * wl_g + 6 * j),
            decreases ml - k,
        {
            let ghost contra = spec_valid_encoding(bytes@);
            proof {
                if contra {
                    let gs = choose|gs: GameState| encodable(gs) && decode_post(bytes@, gs);
                    assert(gs.maze.spec_walls().len() == wl_g);
                    assert(gs.moves@.len() == ml);
                    assert(bytes@.len() == 24 + 4 * wl_g + 6 * ml);
                    assert(dir_tag((gs.moves@[k as int]).1) == u16_at(
                        bytes@,
                        28 + 4 * wl_g + 6 * k,
                    ));
                }
            }
            let x = match read_u16(bytes, idx) {
                Some(v) => v,
                None => { return None },
            };
            proof {
                assert(idx + 2 <= bytes@.len());
            }
            let y = match read_u16(bytes, idx + 2) {
                Some(v) => v,
                None => { return None },
            };
            proof {
                assert(idx + 4 <= bytes@.len());
            }
            let tag = match read_u16(bytes, idx + 4) {
                Some(v) => v,
                None => { return None },
            };
            let d: Option<Direction> = if tag == 0 {
                None
            } else if tag == 1 {
                Some(Direction::Left)
            } else if tag == 2 {
                Some(Direction::Right)
            } else if tag == 3 {
                Some(Direction::Up)
            } else if tag == 4 {
                Some(Direction::Down)
            } else {
                return None;
            };
            moves.push((Position { x, y }, d));
            idx = idx + 6;
            k = k + 1;
        }
        proof {
            lemma_valid_unpack(bytes@);
        }
        if idx != n {
            return None;
        }
        let maze = Maze { walls, enter: 0, exit, size, width, height };
        Some(GameState { maze, difficulty, pos: Position { x: px, y: py }, moves })
    }
}

/// A snapshot the byte codec can carry: the maze is well formed and both
/// lists fit the four-byte length fields.
pub open spec fn encodable(gs: GameState) -> bool {
    &&& gs.maze.wf()
    &&& gs.maze.spec_walls().len() < 0x1_0000_0000
    &&& gs.moves@.len() < 0x1_0000_0000
}

/// `b` is the encoding of some encodable snapshot.
pub open spec fn spec_valid_encoding(b: Seq<u8>) -> bool {
    exists|gs: GameState| b == spec_encoding(gs) && #[trigger] encodable(gs)
}

/// A valid byte string comes with a snapshot whose fields sit at their
/// offsets.
proof fn lemma_valid_unpack(b: Seq<u8>)
    ensures
        spec_valid_encoding(b) ==> exists|gs: GameState|
            encodable(gs) && #[trigger] decode_post(b, gs),
{
    if spec_valid_encoding(b) {
        let gs = choose|gs: GameState| b == spec_encoding(gs) && #[trigger] encodable(gs);
        lemma_encoding_decodes(gs);
        assert(encodable(gs) && decode_post(b, gs));
    }
}

/// Distinct directions carry distinct tags.
proof fn lemma_dir_tag_injective(a: Option<Direction>, b: Option<Direction>)
    requires
        dir_tag(a) == dir_tag(b),
    ensures
        a == b,
{
}

/// Distinct difficulties carry distinct tags.
proof fn lemma_diff_tag_injective(a: Difficulty, b: Difficulty)
    requires
        diff_tag(a) == diff_tag(b),
    ensures
        a == b,
{
}

/// Law: a lossless snapshot restores behaviour, not just data.  Two game
/// states with the same field values expose element-wise identical movement
/// sets at every position and an identical history, so any serialization
/// that round-trips the fields round-trips everything a session observes.
pub proof fn lemma_snapshot_restores(a: GameState, b: GameState, p: Position)
    requires
        a.same_state(b),
    ensures
        a.maze.spec_movements(p) == b.maze.spec_movements(p),
        forall|d: Direction| a.maze.spec_move_pos(p, d) == b.maze.spec_move_pos(p, d),
        a.moves@ == b.moves@,
{
    assert forall|d: Direction| a.maze.spec_move_pos(p, d) == b.maze.spec_move_pos(p, d) by {
        lemma_same_walls_same_moves(a.maze, b.maze, p, d);
    }
    lemma_same_walls_same_moves(a.maze, b.maze, p, Direction::Left);
    lemma_same_walls_same_moves(a.maze, b.maze, p, Direction::Right);
    lemma_same_walls_same_moves(a.maze, b.maze, p, Direction::Up);
    lemma_same_walls_same_moves(a.maze, b.maze, p, Direction::Down);
}

/// Moving through two mazes with the same walls and dimensions gives the
/// same outcome.
proof fn lemma_same_walls_same_moves(m1: Maze, m2: Maze, p: Position, d: Direction)
    requires
        m1.spec_walls() == m2.spec_walls(),
        m1.width == m2.width,
        m1.height == m2.height,
    ensures
        m1.spec_move_pos(p, d) == m2.spec_move_pos(p, d),
{
    assert forall|a: int, b: int| #[trigger] m1.spec_has_wall(a, b) implies m2.spec_has_wall(
        a,
        b,
    ) by {
        let k = choose|k: int|
            0 <= k < m1.spec_walls().len() && (((#[trigger] m1.spec_walls()[k]).0 == a
                && m1.spec_walls()[k].1 == b) || (m1.spec_walls()[k].0 == b && m1.spec_walls()[k].1
                == a));
        assert(m2.spec_walls()[k] == m1.spec_walls()[k]);
    }
    assert forall|a: int, b: int| #[trigger] m2.spec_has_wall(a, b) implies m1.spec_has_wall(
        a,
        b,
    ) by {
        let k = choose|k: int|
            0 <= k < m2.spec_walls().len() && (((#[trigger] m2.spec_walls()[k]).0 == a
                && m2.spec_walls()[k].1 == b) || (m2.spec_walls()[k].0 == b && m2.spec_walls()[k].1
                == a));
        assert(m1.spec_walls()[k] == m2.spec_walls()[k]);
    }
}

} // verus!
