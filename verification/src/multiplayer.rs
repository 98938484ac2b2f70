//! The room layer: rooms that own one minefield each and the set of
//! clients viewing it, the manager that routes every client to
//! exactly one live room, and the human-shareable room codes.

use crate::game::{Minefield, RevealEvent, SquareContents};
use crate::messages::{IncomingMessage, MessageView, OutgoingMessage};
use std::collections::HashMap;
use vstd::prelude::*;
use vstd::std_specs::hash::group_hash_axioms;
use vstd::string::StrSliceExecFns;
use vstd::string::StringExecFns;

verus! {

/// The identity of a room, assigned from a monotonic counter.
pub type RoomId = u32;

/// The opaque per-connection handle of a client.
pub type ClientId = u64;

/// The scrambled form of a room identity that the room code spells
/// out: an invertible mix, so distinct rooms get distinct codes.
pub open spec fn mix(id: u32) -> u32 {
    let a = id ^ (id << 13);
    let b = a ^ (a >> 17);
    b ^ (b << 5)
}

/// The mix is injective: equal codes can only come from equal room
/// identities.
pub proof fn lemma_mix_injective(a: u32, b: u32)
    by (bit_vector)
    requires
        mix(a) == mix(b),
    ensures
        a == b,
{
}

/// The letter spelling the 4-bit value `d`: digits are replaced by
/// visually distinct letters, so codes read aloud unambiguously.
pub open spec fn code_letter(d: int) -> char {
    if d == 0 {
        'G'
    } else if d == 1 {
        'H'
    } else if d == 2 {
        'Q'
    } else if d == 3 {
        'J'
    } else if d == 4 {
        'K'
    } else if d == 5 {
        'L'
    } else if d == 6 {
        'M'
    } else if d == 7 {
        'N'
    } else if d == 8 {
        'O'
    } else if d == 9 {
        'P'
    } else if d == 10 {
        'A'
    } else if d == 11 {
        'B'
    } else if d == 12 {
        'C'
    } else if d == 13 {
        'D'
    } else if d == 14 {
        'E'
    } else {
        'F'
    }
}

/// The 4-bit value a code letter spells, or -1 for any other
/// character.
pub open spec fn letter_val(c: char) -> int {
    if c == 'G' {
        0
    } else if c == 'H' {
        1
    } else if c == 'Q' {
        2
    } else if c == 'J' {
        3
    } else if c == 'K' {
        4
    } else if c == 'L' {
        5
    } else if c == 'M' {
        6
    } else if c == 'N' {
        7
    } else if c == 'O' {
        8
    } else if c == 'P' {
        9
    } else if c == 'A' {
        10
    } else if c == 'B' {
        11
    } else if c == 'C' {
        12
    } else if c == 'D' {
        13
    } else if c == 'E' {
        14
    } else if c == 'F' {
        15
    } else {
        -1
    }
}

/// The k-th 4-bit group of `m`, most significant first.
pub open spec fn nibble(m: u32, k: int) -> int {
    ((m >> ((28 - 4 * k) as u32)) & 0xF) as int
}

/// The eight letters of the code for room identity `id`.
pub open spec fn code_chars(id: u32) -> Seq<char> {
    Seq::new(8, |k: int| code_letter(nibble(mix(id), k)))
}

/// The value the eight letters of a code spell, most significant
/// letter first.
pub open spec fn code_key_val(t: Seq<char>) -> int
    decreases t.len(),
{
    if t.len() == 0 {
        0
    } else {
        code_key_val(t.drop_last()) * 16 + letter_val(t.last())
    }
}

/// What a join code denotes: the mixed room identity it spells, or
/// nothing unless it is exactly eight code letters.
pub open spec fn spec_decode_code(t: Seq<char>) -> Option<u32> {
    if t.len() == 8 && (forall|k: int| 0 <= k < 8 ==> letter_val(#[trigger] t[k]) >= 0) {
        Some(code_key_val(t) as u32)
    } else {
        None
    }
}

/// Each nibble is in 0..16.
proof fn lemma_nibble_range(m: u32, k: int)
    requires
        0 <= k < 8,
    ensures
        0 <= nibble(m, k) < 16,
{
    let sh = (28 - 4 * k) as u32;
    assert((m >> sh) & 0xF < 16) by (bit_vector);
}

/// The code letters are distinct, so a letter pins its 4-bit value.
proof fn lemma_letter_val_inverse(d: int)
    requires
        0 <= d < 16,
    ensures
        letter_val(code_letter(d)) == d,
{
}

/// Decoding the code of a room identity yields its mixed identity.
pub proof fn lemma_decode_code_of(id: u32)
    ensures
        spec_decode_code(code_chars(id)) == Some(mix(id)),
{
    let m = mix(id);
    let t = code_chars(id);
    assert forall|k: int| 0 <= k < 8 implies letter_val(#[trigger] t[k]) >= 0 by {
        lemma_nibble_range(m, k);
        lemma_letter_val_inverse(nibble(m, k));
    }
    assert forall|k: int| 0 <= k < 8 implies letter_val(#[trigger] t[k]) == nibble(m, k) by {
        lemma_nibble_range(m, k);
        lemma_letter_val_inverse(nibble(m, k));
    }
    let n0 = nibble(m, 0);
    let n1 = nibble(m, 1);
    let n2 = nibble(m, 2);
    let n3 = nibble(m, 3);
    let n4 = nibble(m, 4);
    let n5 = nibble(m, 5);
    let n6 = nibble(m, 6);
    let n7 = nibble(m, 7);
    assert(code_key_val(t.subrange(0, 0)) == 0);
    assert(t.subrange(0, 1).drop_last() =~= t.subrange(0, 0));
    assert(code_key_val(t.subrange(0, 1)) == n0);
    assert(t.subrange(0, 2).drop_last() =~= t.subrange(0, 1));
    assert(code_key_val(t.subrange(0, 2)) == n0 * 16 + n1);
    assert(t.subrange(0, 3).drop_last() =~= t.subrange(0, 2));
    assert(code_key_val(t.subrange(0, 3)) == (n0 * 16 + n1) * 16 + n2);
    assert(t.subrange(0, 4).drop_last() =~= t.subrange(0, 3));
    assert(code_key_val(t.subrange(0, 4)) == ((n0 * 16 + n1) * 16 + n2) * 16 + n3);
    assert(t.subrange(0, 5).drop_last() =~= t.subrange(0, 4));
    assert(code_key_val(t.subrange(0, 5)) == (((n0 * 16 + n1) * 16 + n2) * 16 + n3) * 16 + n4);
    assert(t.subrange(0, 6).drop_last() =~= t.subrange(0, 5));
    assert(code_key_val(t.subrange(0, 6)) == ((((n0 * 16 + n1) * 16 + n2) * 16 + n3) * 16 + n4)
        * 16 + n5);
    assert(t.subrange(0, 7).drop_last() =~= t.subrange(0, 6));
    assert(code_key_val(t.subrange(0, 7)) == (((((n0 * 16 + n1) * 16 + n2) * 16 + n3) * 16 + n4)
        * 16 + n5) * 16 + n6);
    assert(t.subrange(0, 8).drop_last() =~= t.subrange(0, 7));
    assert(code_key_val(t.subrange(0, 8)) == ((((((n0 * 16 + n1) * 16 + n2) * 16 + n3) * 16 + n4)
        * 16 + n5) * 16 + n6) * 16 + n7);
    assert(t.subrange(0, 8) =~= t);
    assert(code_key_val(t) == ((((((n0 * 16 + n1) * 16 + n2) * 16 + n3) * 16 + n4) * 16 + n5) * 16
        + n6) * 16 + n7);
    assert(((((((((m >> 28u32) & 0xF) * 16 + ((m >> 24u32) & 0xF)) * 16 + ((m >> 20u32) & 0xF))
        * 16 + ((m >> 16u32) & 0xF)) * 16 + ((m >> 12u32) & 0xF)) * 16 + ((m >> 8u32) & 0xF)) * 16
        + ((m >> 4u32) & 0xF)) * 16 + ((m >> 0u32) & 0xF) == m) by (bit_vector);
}

/// Distinct room identities always spell distinct codes.
pub proof fn lemma_room_code_injective(id1: u32, id2: u32)
    requires
        code_chars(id1) == code_chars(id2),
    ensures
        id1 == id2,
{
    lemma_decode_code_of(id1);
    lemma_decode_code_of(id2);
    assert(mix(id1) == mix(id2));
    lemma_mix_injective(id1, id2);
}

/// The one-letter string for the 4-bit value `d`.
fn code_letter_str(d: u32) -> (s: &'static str)
    requires
        d < 16,
    ensures
        s@ == seq![code_letter(d as int)],
{
    proof {
        reveal_strlit("G");
        reveal_strlit("H");
        reveal_strlit("Q");
        reveal_strlit("J");
        reveal_strlit("K");
        reveal_strlit("L");
        reveal_strlit("M");
        reveal_strlit("N");
        reveal_strlit("O");
        reveal_strlit("P");
        reveal_strlit("A");
        reveal_strlit("B");
        reveal_strlit("C");
        reveal_strlit("D");
        reveal_strlit("E");
        reveal_strlit("F");
    }
    match d {
        0 => "G",
        1 => "H",
        2 => "Q",
        3 => "J",
        4 => "K",
        5 => "L",
        6 => "M",
        7 => "N",
        8 => "O",
        9 => "P",
        10 => "A",
        11 => "B",
        12 => "C",
        13 => "D",
        14 => "E",
        _ => "F",
    }
}

/// Derives the shareable code of a room identity: eight letters
/// spelling the mixed identity. A pure function of the identity, so
/// the code is the same every time it is computed.
pub fn room_id_to_code(id: u32) -> (s: String)
    ensures
        s@ == code_chars(id),
{
    let a = id ^ (id << 13u32);
    let b = a ^ (a >> 17u32);
    let m = b ^ (b << 5u32);
    proof {
        assert(m == mix(id));
    }
    let mut out = String::new();
    let mut k: usize = 0;
    while k < 8
        invariant
            0 <= k <= 8,
            m == mix(id),
            out@.len() == k,
            forall|j: int| 0 <= j < k ==> out@[j] == code_chars(id)[j],
        decreases 8 - k,
    {
        let sh: u32 = (28 - 4 * (k as u32));
        let d = (m >> sh) & 0xF;
        proof {
            assert((m >> sh) & 0xF < 16) by (bit_vector);
            assert(d as int == nibble(m, k as int));
        }
        out.append(code_letter_str(d));
        k = k + 1;
    }
    proof {
        assert(out@ =~= code_chars(id));
    }
    out
}

/// The 4-bit value a code letter spells.
fn letter_val_exec(c: char) -> (r: Option<u32>)
    ensures
        r is Some <==> letter_val(c) >= 0,
        r is Some ==> r->Some_0 as int == letter_val(c),
{
    match c {
        'G' => Some(0),
        'H' => Some(1),
        'Q' => Some(2),
        'J' => Some(3),
        'K' => Some(4),
        'L' => Some(5),
        'M' => Some(6),
        'N' => Some(7),
        'O' => Some(8),
        'P' => Some(9),
        'A' => Some(10),
        'B' => Some(11),
        'C' => Some(12),
        'D' => Some(13),
        'E' => Some(14),
        'F' => Some(15),
        _ => None,
    }
}

/// A valid-letter string of length at most 8 spells a value below
/// 16^length.
proof fn lemma_code_key_val_bound(t: Seq<char>)
    requires
        t.len() <= 8,
        forall|k: int| 0 <= k < t.len() ==> letter_val(#[trigger] t[k]) >= 0,
    ensures
        0 <= code_key_val(t),
        t.len() <= 0 ==> code_key_val(t) < 1,
        t.len() <= 1 ==> code_key_val(t) < 16,
        t.len() <= 2 ==> code_key_val(t) < 256,
        t.len() <= 3 ==> code_key_val(t) < 4096,
        t.len() <= 4 ==> code_key_val(t) < 65536,
        t.len() <= 5 ==> code_key_val(t) < 1048576,
        t.len() <= 6 ==> code_key_val(t) < 16777216,
        t.len() <= 7 ==> code_key_val(t) < 268435456,
        t.len() <= 8 ==> code_key_val(t) < 4294967296,
    decreases t.len(),
{
    if t.len() > 0 {
        lemma_code_key_val_bound(t.drop_last());
        assert(letter_val(t.last()) < 16);
    }
}

/// Reads a join code back into the mixed room identity it spells,
/// or nothing unless it is exactly eight code letters.
pub fn decode_code(code: &str) -> (r: Option<u32>)
    ensures
        r == spec_decode_code(code@),
{
    let n = code.unicode_len();
    if n != 8 {
        return None;
    }
    let mut acc: u32 = 0;
    let mut k: usize = 0;
    while k < 8
        invariant
            0 <= k <= 8,
            code@.len() == 8,
            forall|j: int| 0 <= j < k ==> letter_val(#[trigger] code@[j]) >= 0,
            acc as int == code_key_val(code@.subrange(0, k as int)),
        decreases 8 - k,
    {
        let c = code.get_char(k);
        match letter_val_exec(c) {
            Some(v) => {
                proof {
                    assert(code@.subrange(0, k + 1).drop_last() =~= code@.subrange(0, k as int));
                    assert(code@.subrange(0, k + 1).last() == c);
                    lemma_code_key_val_bound(code@.subrange(0, k as int));
                }
                acc = acc * 16 + v;
            },
            None => {
                proof {
                    assert(letter_val(code@[k as int]) < 0);
                }
                return None;
            },
        }
        k = k + 1;
    }
    proof {
        assert(code@.subrange(0, 8) =~= code@);
    }
    Some(acc)
}

/// No reveal message carries an adjacency count over 8, so every
/// message can be encoded.
pub open spec fn msg_ok(m: OutgoingMessage) -> bool {
    m matches OutgoingMessage::Reveal(x, y, c) ==> (c matches SquareContents::NumMines(n) ==> n
        <= 8)
}

/// The same message addressed to every client, in membership order.
pub open spec fn sends_to_all(clients: Seq<ClientId>, m: OutgoingMessage) -> Seq<
    (ClientId, OutgoingMessage),
> {
    Seq::new(clients.len(), |i: int| (clients[i], m))
}

/// Each message in order, addressed to the one client `c`.
pub open spec fn addressed(c: ClientId, msgs: Seq<OutgoingMessage>) -> Seq<
    (ClientId, OutgoingMessage),
> {
    Seq::new(msgs.len(), |i: int| (c, msgs[i]))
}

/// Every message addressed to every client: message by message, each
/// to all clients in membership order.
pub open spec fn broadcast_plan(clients: Seq<ClientId>, msgs: Seq<OutgoingMessage>) -> Seq<
    (ClientId, OutgoingMessage),
>
    decreases msgs.len(),
{
    if msgs.len() == 0 {
        Seq::empty()
    } else {
        sends_to_all(clients, msgs[0]) + broadcast_plan(clients, msgs.drop_first())
    }
}

/// Extending the message list extends the plan at its end.
pub proof fn lemma_plan_push(
    clients: Seq<ClientId>,
    msgs: Seq<OutgoingMessage>,
    m: OutgoingMessage,
)
    ensures
        broadcast_plan(clients, msgs.push(m)) == broadcast_plan(clients, msgs) + sends_to_all(
            clients,
            m,
        ),
    decreases msgs.len(),
{
    if msgs.len() == 0 {
        assert(msgs.push(m).drop_first() =~= msgs);
        assert(broadcast_plan(clients, msgs.push(m)) =~= sends_to_all(clients, m));
        assert(broadcast_plan(clients, msgs) + sends_to_all(clients, m) =~= sends_to_all(
            clients,
            m,
        ));
    } else {
        assert(msgs.push(m).drop_first() =~= msgs.drop_first().push(m));
        assert(msgs.push(m)[0] == msgs[0]);
        lemma_plan_push(clients, msgs.drop_first(), m);
        assert(broadcast_plan(clients, msgs.push(m)) =~= broadcast_plan(clients, msgs)
            + sends_to_all(clients, m));
    }
}

/// The reveal events as outgoing messages, in order.
pub open spec fn reveal_msgs(evs: Seq<RevealEvent>) -> Seq<OutgoingMessage> {
    Seq::new(evs.len(), |i: int| OutgoingMessage::Reveal(evs[i].0, evs[i].1, evs[i].2))
}

/// The reveal messages replayed to a joining client for the first
/// `k` squares: one per already-revealed square, carrying its
/// adjacent-mine count recomputed from the current grid.
pub open spec fn reveal_snapshot_upto(f: Minefield, k: int) -> Seq<OutgoingMessage>
    decreases k,
{
    if k <= 0 {
        Seq::empty()
    } else {
        reveal_snapshot_upto(f, k - 1) + if f.squares@[k - 1].revealed {
            seq![
                OutgoingMessage::Reveal(
                    f.squares@[k - 1].x,
                    f.squares@[k - 1].y,
                    SquareContents::NumMines(
                        f.adj_mines(f.squares@[k - 1].x as int, f.squares@[k - 1].y as int) as u8,
                    ),
                ),
            ]
        } else {
            Seq::empty()
        }
    }
}

/// The flag messages replayed to a joining client for the first `k`
/// squares: one per currently flagged square.
pub open spec fn flag_snapshot_upto(f: Minefield, k: int) -> Seq<OutgoingMessage>
    decreases k,
{
    if k <= 0 {
        Seq::empty()
    } else {
        flag_snapshot_upto(f, k - 1) + if f.squares@[k - 1].flagged {
            seq![OutgoingMessage::Flag(f.squares@[k - 1].x, f.squares@[k - 1].y, true)]
        } else {
            Seq::empty()
        }
    }
}

/// Everything a joining client is sent, in order: the new-game
/// announcement, the room code, the reveal replay, the flag replay.
pub open spec fn snapshot_msgs(r: GameRoom) -> Seq<OutgoingMessage> {
    seq![
        OutgoingMessage::NewGame(r.field.width, r.field.height, r.field.num_mines),
        OutgoingMessage::RoomCode(r.room_code),
    ] + reveal_snapshot_upto(r.field, r.field.squares@.len() as int) + flag_snapshot_upto(
        r.field,
        r.field.squares@.len() as int,
    )
}

/// One game instance: a minefield, the clients viewing it, and the
/// game-over latch.
pub struct GameRoom {
    pub clients: Vec<ClientId>,
    pub field: Minefield,
    pub is_game_over: bool,
    pub room_id: RoomId,
    pub room_code: String,
}

/// How one reveal request transforms a room and what it sends: a
/// finished game ignores it; a request the minefield rejects sends
/// nothing; otherwise the minefield's events are broadcast to every
/// member in order, and the game-over latch is set exactly when a
/// mine was revealed.
pub open spec fn room_reveal_step(
    r0: GameRoom,
    r1: GameRoom,
    sends: Seq<(ClientId, OutgoingMessage)>,
    x: usize,
    y: usize,
) -> bool {
    &&& r1.clients@ == r0.clients@
    &&& r1.room_id == r0.room_id
    &&& r1.room_code == r0.room_code
    &&& r0.is_game_over ==> r1 == r0 && sends.len() == 0
    &&& !r0.is_game_over && (!r0.field.in_bounds(x as int, y as int) || r0.field.sq(
        x as int,
        y as int,
    ).revealed) ==> r1 == r0 && sends.len() == 0
    &&& !r0.is_game_over && r0.field.in_bounds(x as int, y as int) && !r0.field.sq(
        x as int,
        y as int,
    ).revealed ==> exists|evs: Seq<RevealEvent>|
        {
            &&& #[trigger] crate::game::reveal_outcome(r0.field, r1.field, evs, x as int, y as int)
            &&& (r1.is_game_over <==> crate::game::has_mine_event(evs))
            &&& sends == broadcast_plan(r0.clients@, reveal_msgs(evs))
        }
}

/// How one flag request transforms a room and what it sends:
/// out-of-range coordinates are ignored; otherwise the square's flag
/// is set unconditionally and the change is broadcast.
pub open spec fn room_flag_step(
    r0: GameRoom,
    r1: GameRoom,
    sends: Seq<(ClientId, OutgoingMessage)>,
    x: usize,
    y: usize,
    on: bool,
) -> bool {
    &&& r1.clients@ == r0.clients@
    &&& r1.room_id == r0.room_id
    &&& r1.room_code == r0.room_code
    &&& r1.is_game_over == r0.is_game_over
    &&& !r0.field.in_bounds(x as int, y as int) ==> r1 == r0 && sends.len() == 0
    &&& r0.field.in_bounds(x as int, y as int) ==> {
        &&& r1.field.squares@ == r0.field.squares@.update(
            r0.field.idx(x as int, y as int),
            crate::game::Square { flagged: on, ..r0.field.sq(x as int, y as int) },
        )
        &&& r1.field.width == r0.field.width
        &&& r1.field.height == r0.field.height
        &&& r1.field.num_mines == r0.field.num_mines
        &&& r1.field.is_first_move == r0.field.is_first_move
        &&& sends == sends_to_all(r0.clients@, OutgoingMessage::Flag(x, y, on))
    }
}

impl GameRoom {
    /// Well-formedness: a well-formed minefield and no client listed
    /// twice.
    pub open spec fn wf(self) -> bool {
        &&& self.field.wf()
        &&& forall|i: int, j: int|
            0 <= i < j < self.clients@.len() ==> #[trigger] self.clients@[i]
                != #[trigger] self.clients@[j]
    }

    pub fn new(field: Minefield, room_id: RoomId, room_code: String) -> (r: GameRoom)
        requires
            field.wf(),
        ensures
            r.wf(),
            r.field == field,
            r.room_id == room_id,
            r.room_code == room_code,
            r.clients@ =~= Seq::<ClientId>::empty(),
            !r.is_game_over,
    {
        GameRoom { clients: Vec::new(), field, is_game_over: false, room_id, room_code }
    }

    pub fn is_empty(&self) -> (r: bool)
        ensures
            r == (self.clients@.len() == 0),
    {
        self.clients.len() == 0
    }

    /// Registers a new member and returns the snapshot replay that
    /// reconstructs the visible board for that client alone.
    pub fn add_client(&mut self, client_id: ClientId) -> (msgs: Vec<OutgoingMessage>)
        requires
            old(self).wf(),
            !old(self).clients@.contains(client_id),
        ensures
            final(self).wf(),
            final(self).clients@ == old(self).clients@.push(client_id),
            final(self).field == old(self).field,
            final(self).is_game_over == old(self).is_game_over,
            final(self).room_id == old(self).room_id,
            final(self).room_code == old(self).room_code,
            msgs@ == snapshot_msgs(*old(self)),
            forall|i: int| 0 <= i < msgs@.len() ==> msg_ok(#[trigger] msgs@[i]),
    {
        let mut msgs: Vec<OutgoingMessage> = Vec::new();
        msgs.push(
            OutgoingMessage::NewGame(self.field.width(), self.field.height(), self.field.num_mines()),
        );
        msgs.push(OutgoingMessage::RoomCode(self.room_code.clone()));
        let ghost base = msgs@;
        let n = self.field.squares.len();
        let w = self.field.width();
        let h = self.field.height();
        let mut i: usize = 0;
        while i < n
            invariant
                0 <= i <= n,
                self.wf(),
                *self == *old(self),
                n == self.field.squares@.len(),
                w == self.field.width,
                h == self.field.height,
                base.len() == 2,
                msgs@ == base + reveal_snapshot_upto(self.field, i as int),
                forall|k: int| 0 <= k < msgs@.len() ==> msg_ok(#[trigger] msgs@[k]),
            decreases n - i,
        {
            let q = self.field.squares[i];
            if q.revealed {
                proof {
                    assert(q.y as int == i as int / (w as int));
                    let wi = w as int;
                    let hi = h as int;
                    let ii = i as int;
                    assert(ii / wi < hi) by (nonlinear_arith)
                        requires
                            0 <= ii,
                            ii < wi * hi,
                            0 < wi,
                    ;
                }
                let cnt = self.field.adjacent_mines(q.x, q.y);
                msgs.push(OutgoingMessage::Reveal(q.x, q.y, SquareContents::NumMines(cnt)));
            }
            proof {
                assert(msgs@ =~= base + reveal_snapshot_upto(self.field, i + 1));
            }
            i = i + 1;
        }
        let ghost base2 = msgs@;
        let mut i2: usize = 0;
        while i2 < n
            invariant
                0 <= i2 <= n,
                self.wf(),
                *self == *old(self),
                n == self.field.squares@.len(),
                base2 == base + reveal_snapshot_upto(self.field, n as int),
                msgs@ == base2 + flag_snapshot_upto(self.field, i2 as int),
                forall|k: int| 0 <= k < msgs@.len() ==> msg_ok(#[trigger] msgs@[k]),
            decreases n - i2,
        {
            let q = self.field.squares[i2];
            if q.flagged {
                msgs.push(OutgoingMessage::Flag(q.x, q.y, true));
            }
            proof {
                assert(msgs@ =~= base2 + flag_snapshot_upto(self.field, i2 + 1));
            }
            i2 = i2 + 1;
        }
        self.clients.push(client_id);
        proof {
            assert(msgs@ =~= snapshot_msgs(*old(self)));
        }
        msgs
    }

    /// Unregisters a member; reports whether it was present.
    #[verifier::loop_isolation(false)]
    pub fn remove_client(&mut self, client_id: ClientId) -> (found: bool)
        requires
            old(self).wf(),
        ensures
            final(self).wf(),
            final(self).field == old(self).field,
            final(self).is_game_over == old(self).is_game_over,
            final(self).room_id == old(self).room_id,
            final(self).room_code == old(self).room_code,
            found <==> old(self).clients@.contains(client_id),
            !found ==> *final(self) == *old(self),
            !final(self).clients@.contains(client_id),
            forall|c: ClientId|
                c != client_id ==> (final(self).clients@.contains(c) <==> old(
                    self,
                ).clients@.contains(c)),
            found ==> final(self).clients@.len() == old(self).clients@.len() - 1,
    {
        let n = self.clients.len();
        let mut i: usize = 0;
        while i < n
            invariant
                0 <= i <= n,
                n == self.clients@.len(),
                *self == *old(self),
                forall|j: int| 0 <= j < i ==> self.clients@[j] != client_id,
            decreases n - i,
        {
            if self.clients[i] == client_id {
                let ghost before = self.clients@;
                self.clients.remove(i);
                proof {
                    assert(self.clients@ =~= before.subrange(0, i as int) + before.subrange(
                        i + 1,
                        n as int,
                    ));
                    assert(before.contains(client_id));
                    assert forall|c: ClientId|
                        c != client_id implies (self.clients@.contains(c) <==> before.contains(
                        c,
                    )) by {
                        if self.clients@.contains(c) {
                            let j = choose|j: int|
                                0 <= j < self.clients@.len() && self.clients@[j] == c;
                            if j < i {
                                assert(before[j] == c);
                            } else {
                                assert(before[j + 1] == c);
                            }
                        }
                        if before.contains(c) {
                            let j = choose|j: int| 0 <= j < before.len() && before[j] == c;
                            if j < i {
                                assert(self.clients@[j] == c);
                            } else if j > i {
                                assert(self.clients@[j - 1] == c);
                            }
                        }
                    }
                    assert(!self.clients@.contains(client_id)) by {
                        if self.clients@.contains(client_id) {
                            let j = choose|j: int|
                                0 <= j < self.clients@.len() && self.clients@[j] == client_id;
                            if j < i {
                                assert(before[j] == client_id);
                                assert(false);
                            } else {
                                assert(before[j + 1] == client_id);
                                assert(before[i as int] == client_id);
                                assert(false);
                            }
                        }
                    }
                    assert forall|a: int, b: int|
                        0 <= a < b < self.clients@.len() implies #[trigger] self.clients@[a]
                        != #[trigger] self.clients@[b] by {
                        if a < i {
                            assert(self.clients@[a] == before[a]);
                        } else {
                            assert(self.clients@[a] == before[a + 1]);
                        }
                        if b < i {
                            assert(self.clients@[b] == before[b]);
                        } else {
                            assert(self.clients@[b] == before[b + 1]);
                        }
                    }
                }
                return true;
            }
            i = i + 1;
        }
        proof {
            if old(self).clients@.contains(client_id) {
                let j = choose|j: int|
                    0 <= j < old(self).clients@.len() && old(self).clients@[j] == client_id;
                assert(false);
            }
        }
        false
    }

    /// Pairs the message with every current member, in membership
    /// order; the caller delivers the pairs.
    pub fn broadcast_message(&self, message: &OutgoingMessage) -> (sends: Vec<
        (ClientId, OutgoingMessage),
    >)
        ensures
            sends@ == sends_to_all(self.clients@, *message),
    {
        let mut sends: Vec<(ClientId, OutgoingMessage)> = Vec::new();
        let n = self.clients.len();
        let mut i: usize = 0;
        while i < n
            invariant
                0 <= i <= n,
                n == self.clients@.len(),
                sends@.len() == i,
                forall|j: int| 0 <= j < i ==> #[trigger] sends@[j] == (self.clients@[j], *message),
            decreases n - i,
        {
            sends.push((self.clients[i], message.duplicate()));
            i = i + 1;
        }
        proof {
            assert(sends@ =~= sends_to_all(self.clients@, *message));
        }
        sends
    }

    /// Handles one reveal request: a no-op once the game is over;
    /// otherwise the minefield's events are broadcast to every
    /// member in order, latching game-over if a mine is reported.
    #[verifier::loop_isolation(false)]
    pub fn reveal_square(&mut self, x: usize, y: usize) -> (sends: Vec<
        (ClientId, OutgoingMessage),
    >)
        requires
            old(self).wf(),
        ensures
            final(self).wf(),
            room_reveal_step(*old(self), *final(self), sends@, x, y),
            forall|i: int| 0 <= i < sends@.len() ==> msg_ok((#[trigger] sends@[i]).1),
    {
        if self.is_game_over {
            return Vec::new();
        }
        let r = self.field.recursive_square_reveal(x, y);
        match r {
            None => {
                let sends: Vec<(ClientId, OutgoingMessage)> = Vec::new();
                proof {
                    assert(*self == *old(self));
                    assert(sends@.len() == 0);
                    assert(!old(self).field.in_bounds(x as int, y as int) || old(self).field.sq(
                        x as int,
                        y as int,
                    ).revealed);
                    assert(room_reveal_step(*old(self), *self, sends@, x, y));
                }
                sends
            },
            Some(evs) => {
                let mut sends: Vec<(ClientId, OutgoingMessage)> = Vec::new();
                let ghost evseq = evs@;
                let ghost clients = self.clients@;
                let ghost fld = self.field;
                proof {
                    assert forall|i: int| 0 <= i < evseq.len() implies msg_ok(
                        OutgoingMessage::Reveal((#[trigger] evseq[i]).0, evseq[i].1, evseq[i].2),
                    ) by {
                        if !fld.sq(x as int, y as int).is_mine {
                            assert(evseq[i].2 == SquareContents::NumMines(
                                fld.adj_mines(evseq[i].0 as int, evseq[i].1 as int) as u8,
                            ));
                        } else {
                            assert(evseq.len() == 1 && evseq[0].2 == SquareContents::MineBoom);
                        }
                    }
                }
                let ne = evs.len();
                let mut e: usize = 0;
                while e < ne
                    invariant
                        0 <= e <= ne,
                        ne == evseq.len(),
                        evs@ == evseq,
                        self.clients@ == clients,
                        self.field == fld,
                        self.room_id == old(self).room_id,
                        self.room_code == old(self).room_code,
                        self.wf(),
                        forall|i: int|
                            0 <= i < evseq.len() ==> msg_ok(
                                OutgoingMessage::Reveal(
                                    (#[trigger] evseq[i]).0,
                                    evseq[i].1,
                                    evseq[i].2,
                                ),
                            ),
                        self.is_game_over <==> crate::game::has_mine_event(
                            evseq.subrange(0, e as int),
                        ),
                        sends@ == broadcast_plan(clients, reveal_msgs(evseq).subrange(0, e as int)),
                        forall|i: int| 0 <= i < sends@.len() ==> msg_ok((#[trigger] sends@[i]).1),
                    decreases ne - e,
                {
                    let ev = evs[e];
                    let ghost go_before = self.is_game_over;
                    if let SquareContents::MineBoom = ev.2 {
                        self.is_game_over = true;
                    }
                    proof {
                        assert(evseq.subrange(0, e + 1).drop_last() =~= evseq.subrange(
                            0,
                            e as int,
                        ));
                        assert(evseq.subrange(0, e + 1).last() == evseq[e as int]);
                        assert(self.is_game_over <==> crate::game::has_mine_event(
                            evseq.subrange(0, e + 1),
                        )) by {
                            if self.is_game_over {
                                if go_before {
                                    let i = choose|i: int|
                                        0 <= i < e && (#[trigger] evseq.subrange(0, e as int)[i]).2
                                            == SquareContents::MineBoom;
                                    assert(evseq.subrange(0, e + 1)[i].2
                                        == SquareContents::MineBoom);
                                } else {
                                    assert(evseq.subrange(0, e + 1)[e as int].2
                                        == SquareContents::MineBoom);
                                }
                            } else {
                                if crate::game::has_mine_event(evseq.subrange(0, e + 1)) {
                                    let i = choose|i: int|
                                        0 <= i < e + 1 && (#[trigger] evseq.subrange(0, e + 1)[i]).2
                                            == SquareContents::MineBoom;
                                    if i < e {
                                        assert(evseq.subrange(0, e as int)[i].2
                                            == SquareContents::MineBoom);
                                    }
                                }
                            }
                        }
                    }
                    let msg = OutgoingMessage::Reveal(ev.0, ev.1, ev.2);
                    let mut batch = self.broadcast_message(&msg);
                    proof {
                        lemma_plan_push(
                            clients,
                            reveal_msgs(evseq).subrange(0, e as int),
                            OutgoingMessage::Reveal(evseq[e as int].0, evseq[e as int].1, evseq[e as int].2),
                        );
                        assert(reveal_msgs(evseq).subrange(0, e + 1) =~= reveal_msgs(
                            evseq,
                        ).subrange(0, e as int).push(
                            OutgoingMessage::Reveal(
                                evseq[e as int].0,
                                evseq[e as int].1,
                                evseq[e as int].2,
                            ),
                        ));
                    }
                    sends.append(&mut batch);
                    e = e + 1;
                }
                proof {
                    assert(evseq.subrange(0, ne as int) =~= evseq);
                    assert(reveal_msgs(evseq).subrange(0, ne as int) =~= reveal_msgs(evseq));
                    assert(crate::game::reveal_outcome(
                        old(self).field,
                        self.field,
                        evseq,
                        x as int,
                        y as int,
                    ));
                    assert(self.is_game_over <==> crate::game::has_mine_event(evseq));
                    assert(sends@ == broadcast_plan(old(self).clients@, reveal_msgs(evseq)));
                    assert(room_reveal_step(*old(self), *self, sends@, x, y));
                }
                sends
            },
        }
    }

    /// Handles one flag request: ignored outside the board bounds,
    /// otherwise applied to the square and broadcast to every
    /// member.
    pub fn handle_flag(&mut self, x: usize, y: usize, on: bool) -> (sends: Vec<
        (ClientId, OutgoingMessage),
    >)
        requires
            old(self).wf(),
        ensures
            final(self).wf(),
            room_flag_step(*old(self), *final(self), sends@, x, y, on),
            forall|i: int| 0 <= i < sends@.len() ==> msg_ok((#[trigger] sends@[i]).1),
    {
        if x < self.field.width() && y < self.field.height() {
            self.field.flag_square(x, y, on);
            self.broadcast_message(&OutgoingMessage::Flag(x, y, on))
        } else {
            Vec::new()
        }
    }
}

/// The room identity counter after one allocation: it wraps on
/// overflow.
pub open spec fn wrap_inc(id: u32) -> u32 {
    if id == 0xFFFF_FFFFu32 {
        0u32
    } else {
        (id + 1) as u32
    }
}

/// The scrambled identity, computed executably.
fn mix_exec(id: u32) -> (m: u32)
    ensures
        m == mix(id),
{
    let a = id ^ (id << 13u32);
    let b = a ^ (a >> 17u32);
    b ^ (b << 5u32)
}

/// Owns every room, routes each connected client to exactly one of
/// them, and keeps the code index consistent with the room table.
pub struct RoomManager {
    pub rooms: HashMap<RoomId, GameRoom>,
    pub next_room_id: RoomId,
    pub client_map: HashMap<ClientId, RoomId>,
    pub code_map: HashMap<u32, RoomId>,
}

impl RoomManager {
    /// The routing invariant: every client in the client map sits in
    /// the member list of exactly the live room it is mapped to, and
    /// conversely every room member is mapped to that room; every
    /// live room is well-formed, non-empty, carries its own identity
    /// and the code derived from it; and the code index and the room
    /// table mirror each other.
    pub open spec fn wf(self) -> bool {
        &&& forall|c: ClientId| #[trigger]
            self.client_map@.contains_key(c) ==> self.rooms@.contains_key(self.client_map@[c])
                && self.rooms@[self.client_map@[c]].clients@.contains(c)
        &&& forall|rid: RoomId, i: int|
            self.rooms@.contains_key(rid) && 0 <= i < self.rooms@[rid].clients@.len()
                ==> self.client_map@.contains_key(#[trigger] self.rooms@[rid].clients@[i])
                && self.client_map@[self.rooms@[rid].clients@[i]] == rid
        &&& forall|rid: RoomId| #[trigger]
            self.rooms@.contains_key(rid) ==> {
                let r = self.rooms@[rid];
                &&& r.wf()
                &&& r.room_id == rid
                &&& r.room_code@ == code_chars(rid)
                &&& r.clients@.len() > 0
                &&& self.code_map@.contains_key(mix(rid))
                &&& self.code_map@[mix(rid)] == rid
            }
        &&& forall|k: u32| #[trigger]
            self.code_map@.contains_key(k) ==> self.rooms@.contains_key(self.code_map@[k]) && mix(
                self.code_map@[k],
            ) == k
    }

    pub fn new() -> (r: RoomManager)
        ensures
            r.wf(),
            r.rooms@ == Map::<RoomId, GameRoom>::empty(),
            r.client_map@ == Map::<ClientId, RoomId>::empty(),
            r.code_map@ == Map::<u32, RoomId>::empty(),
            r.next_room_id == 0,
    {
        let r = RoomManager {
            rooms: HashMap::new(),
            next_room_id: 0,
            client_map: HashMap::new(),
            code_map: HashMap::new(),
        };
        proof {
            broadcast use group_hash_axioms;

        }
        r
    }

    /// Allocates the next room identity; the counter wraps on
    /// overflow.
    fn gen_room_id(&mut self) -> (id: RoomId)
        ensures
            id == old(self).next_room_id,
            final(self).next_room_id == wrap_inc(old(self).next_room_id),
            final(self).rooms@ == old(self).rooms@,
            final(self).client_map@ == old(self).client_map@,
            final(self).code_map@ == old(self).code_map@,
    {
        let id = self.next_room_id;
        self.next_room_id = if self.next_room_id == 0xFFFF_FFFFu32 {
            0
        } else {
            self.next_room_id + 1
        };
        id
    }

    /// Derives the shareable code of a room identity; the same
    /// identity always yields the same code.
    pub fn room_id_to_code(&self, id: RoomId) -> (s: String)
        ensures
            s@ == code_chars(id),
    {
        room_id_to_code(id)
    }

    /// Joins a connected client to an existing room and returns the
    /// snapshot replay for that client.
    fn add_client_to_room(&mut self, client_id: ClientId, room_id: RoomId) -> (msgs: Vec<
        OutgoingMessage,
    >)
        requires
            old(self).wf(),
            !old(self).client_map@.contains_key(client_id),
            old(self).rooms@.contains_key(room_id),
        ensures
            final(self).wf(),
            final(self).client_map@ == old(self).client_map@.insert(client_id, room_id),
            final(self).code_map@ == old(self).code_map@,
            final(self).next_room_id == old(self).next_room_id,
            final(self).rooms@.dom() == old(self).rooms@.dom(),
            forall|k: RoomId|
                k != room_id && old(self).rooms@.contains_key(k) ==> final(self).rooms@[k] == old(
                    self,
                ).rooms@[k],
            final(self).rooms@[room_id].clients@ == old(self).rooms@[room_id].clients@.push(
                client_id,
            ),
            final(self).rooms@[room_id].field == old(self).rooms@[room_id].field,
            final(self).rooms@[room_id].is_game_over == old(self).rooms@[room_id].is_game_over,
            msgs@ == snapshot_msgs(old(self).rooms@[room_id]),
            forall|i: int| 0 <= i < msgs@.len() ==> msg_ok(#[trigger] msgs@[i]),
            final(self).client_map@.contains_key(client_id),
    {
        proof {
            broadcast use group_hash_axioms;

        }
        self.client_map.insert(client_id, room_id);
        let removed = self.rooms.remove(&room_id);
        let mut room = removed.unwrap();
        proof {
            assert(room == old(self).rooms@[room_id]);
            assert(!room.clients@.contains(client_id)) by {
                if room.clients@.contains(client_id) {
                    let i = choose|i: int|
                        0 <= i < room.clients@.len() && room.clients@[i] == client_id;
                    assert(old(self).rooms@[room_id].clients@[i] == client_id);
                    assert(old(self).client_map@.contains_key(client_id));
                }
            }
        }
        let msgs = room.add_client(client_id);
        self.rooms.insert(room_id, room);
        proof {
            broadcast use group_hash_axioms;

            let o = *old(self);
            let f = *self;
            assert(f.rooms@ =~= o.rooms@.insert(room_id, f.rooms@[room_id]));
            assert(f.rooms@.dom() =~= o.rooms@.dom());
            assert(f.rooms@[room_id].clients@ == o.rooms@[room_id].clients@.push(client_id));
            assert forall|c: ClientId| #[trigger]
                f.client_map@.contains_key(c) implies f.rooms@.contains_key(f.client_map@[c])
                && f.rooms@[f.client_map@[c]].clients@.contains(c) by {
                if c == client_id {
                    assert(f.rooms@[room_id].clients@.last() == client_id);
                } else {
                    assert(o.client_map@.contains_key(c));
                    if o.client_map@[c] == room_id {
                        let i = choose|i: int|
                            0 <= i < o.rooms@[room_id].clients@.len()
                                && o.rooms@[room_id].clients@[i] == c;
                        assert(f.rooms@[room_id].clients@[i] == c);
                    }
                }
            }
            assert forall|rid: RoomId, i: int|
                f.rooms@.contains_key(rid) && 0 <= i
                    < f.rooms@[rid].clients@.len() implies f.client_map@.contains_key(
                #[trigger] f.rooms@[rid].clients@[i],
            ) && f.client_map@[f.rooms@[rid].clients@[i]] == rid by {
                if rid == room_id && i == f.rooms@[rid].clients@.len() - 1 {
                } else {
                    assert(o.rooms@[rid].clients@[i] == f.rooms@[rid].clients@[i]);
                    assert(o.client_map@[o.rooms@[rid].clients@[i]] == rid);
                    assert(f.rooms@[rid].clients@[i] != client_id);
                }
            }
        }
        msgs
    }

    /// Creates a fresh default-sized room for a newly connected
    /// client: allocates the identity, registers the code, and joins
    /// the client. Refused (with the counter advanced and nothing
    /// else changed) in the wraparound case where the allocated
    /// identity is still in use.
    pub fn add_client_to_new_room(&mut self, client_id: ClientId) -> (r: Option<
        Vec<(ClientId, OutgoingMessage)>,
    >)
        requires
            old(self).wf(),
            !old(self).client_map@.contains_key(client_id),
        ensures
            final(self).wf(),
            final(self).next_room_id == wrap_inc(old(self).next_room_id),
            r is None <==> old(self).rooms@.contains_key(old(self).next_room_id),
            r is None ==> final(self).rooms@ == old(self).rooms@ && final(self).client_map@ == old(
                self,
            ).client_map@ && final(self).code_map@ == old(self).code_map@,
            r is Some ==> {
                let rid = old(self).next_room_id;
                let f = *final(self);
                &&& f.rooms@.dom() == old(self).rooms@.dom().insert(rid)
                &&& forall|k: RoomId|
                    k != rid && old(self).rooms@.contains_key(k) ==> f.rooms@[k] == old(
                        self,
                    ).rooms@[k]
                &&& f.rooms@[rid].clients@ == seq![client_id]
                &&& !f.rooms@[rid].is_game_over
                &&& f.rooms@[rid].field.width == 30
                &&& f.rooms@[rid].field.height == 16
                &&& f.rooms@[rid].field.num_mines == 99
                &&& f.rooms@[rid].field.is_first_move
                &&& forall|i: int|
                    0 <= i < f.rooms@[rid].field.squares@.len() ==> !(
                    #[trigger] f.rooms@[rid].field.squares@[i]).revealed
                        && !f.rooms@[rid].field.squares@[i].flagged
                &&& f.client_map@ == old(self).client_map@.insert(client_id, rid)
                &&& f.code_map@ == old(self).code_map@.insert(mix(rid), rid)
                &&& r->Some_0@ == seq![
                    (client_id, OutgoingMessage::NewGame(30usize, 16usize, 99usize)),
                    (client_id, OutgoingMessage::RoomCode(f.rooms@[rid].room_code)),
                ]
            },
    {
        proof {
            broadcast use group_hash_axioms;

        }
        let rid = self.gen_room_id();
        if self.rooms.contains_key(&rid) {
            return None;
        }
        let code = room_id_to_code(rid);
        let field = Minefield::default_field();
        let mut room = GameRoom::new(field, rid, code);
        let msgs = room.add_client(client_id);
        proof {
            assert(reveal_snapshot_upto(room.field, room.field.squares@.len() as int)
                =~= Seq::<OutgoingMessage>::empty()) by {
                lemma_empty_snapshots(room.field, room.field.squares@.len() as int);
            }
            assert(flag_snapshot_upto(room.field, room.field.squares@.len() as int)
                =~= Seq::<OutgoingMessage>::empty()) by {
                lemma_empty_snapshots(room.field, room.field.squares@.len() as int);
            }
        }
        let key = mix_exec(rid);
        self.code_map.insert(key, rid);
        self.rooms.insert(rid, room);
        self.client_map.insert(client_id, rid);
        let mut sends: Vec<(ClientId, OutgoingMessage)> = Vec::new();
        let ghost msgseq = msgs@;
        let mut msgs_left = msgs;
        proof {
            assert(msgseq.len() == 2);
        }
        sends.push((client_id, msgs_left.remove(0)));
        sends.push((client_id, msgs_left.remove(0)));
        proof {
            broadcast use group_hash_axioms;

            let o = *old(self);
            let f = *self;
            assert(sends@[0] == (client_id, msgseq[0]));
            assert(sends@[1] == (client_id, msgseq[1]));
            assert(sends@ =~= seq![
                (client_id, OutgoingMessage::NewGame(30usize, 16usize, 99usize)),
                (client_id, OutgoingMessage::RoomCode(f.rooms@[rid].room_code)),
            ]);
            assert(f.rooms@.dom() =~= o.rooms@.dom().insert(rid));
            assert(!o.code_map@.contains_key(mix(rid))) by {
                if o.code_map@.contains_key(mix(rid)) {
                    let r0 = o.code_map@[mix(rid)];
                    assert(o.rooms@.contains_key(r0) && mix(r0) == mix(rid));
                    lemma_mix_injective(r0, rid);
                }
            }
            assert forall|c: ClientId| #[trigger]
                f.client_map@.contains_key(c) implies f.rooms@.contains_key(f.client_map@[c])
                && f.rooms@[f.client_map@[c]].clients@.contains(c) by {
                if c == client_id {
                    assert(f.rooms@[rid].clients@[0] == client_id);
                } else {
                    assert(o.client_map@.contains_key(c));
                    assert(o.client_map@[c] != rid);
                }
            }
            assert forall|rid2: RoomId, i2: int|
                f.rooms@.contains_key(rid2) && 0 <= i2
                    < f.rooms@[rid2].clients@.len() implies f.client_map@.contains_key(
                #[trigger] f.rooms@[rid2].clients@[i2],
            ) && f.client_map@[f.rooms@[rid2].clients@[i2]] == rid2 by {
                if rid2 == rid {
                    assert(f.rooms@[rid2].clients@[i2] == client_id);
                } else {
                    assert(o.rooms@[rid2].clients@[i2] == f.rooms@[rid2].clients@[i2]);
                    assert(o.client_map@[o.rooms@[rid2].clients@[i2]] == rid2);
                    assert(f.rooms@[rid2].clients@[i2] != client_id);
                }
            }
            assert forall|rid2: RoomId| #[trigger]
                f.rooms@.contains_key(rid2) implies {
                let rr = f.rooms@[rid2];
                &&& rr.wf()
                &&& rr.room_id == rid2
                &&& rr.room_code@ == code_chars(rid2)
                &&& rr.clients@.len() > 0
                &&& f.code_map@.contains_key(mix(rid2))
                &&& f.code_map@[mix(rid2)] == rid2
            } by {
                if rid2 != rid {
                    assert(o.rooms@.contains_key(rid2));
                    assert(mix(rid2) != mix(rid)) by {
                        if mix(rid2) == mix(rid) {
                            lemma_mix_injective(rid2, rid);
                        }
                    }
                }
            }
            assert forall|k: u32| #[trigger]
                f.code_map@.contains_key(k) implies f.rooms@.contains_key(f.code_map@[k]) && mix(
                f.code_map@[k],
            ) == k by {
                if k != mix(rid) {
                    assert(o.code_map@.contains_key(k));
                }
            }
        }
        Some(sends)
    }
}

impl RoomManager {
    /// Removes a client from its room on disconnect; a room left
    /// empty is destroyed together with its code entry. Reports
    /// whether the client was connected at all.
    pub fn remove_client(&mut self, client_id: ClientId) -> (found: bool)
        requires
            old(self).wf(),
        ensures
            final(self).wf(),
            found <==> old(self).client_map@.contains_key(client_id),
            final(self).next_room_id == old(self).next_room_id,
            !found ==> final(self).rooms@ == old(self).rooms@ && final(self).client_map@ == old(
                self,
            ).client_map@ && final(self).code_map@ == old(self).code_map@,
            found ==> {
                let rid = old(self).client_map@[client_id];
                let r0 = old(self).rooms@[rid];
                let f = *final(self);
                &&& f.client_map@ == old(self).client_map@.remove(client_id)
                &&& r0.clients@.len() > 1 ==> {
                    &&& f.rooms@.dom() == old(self).rooms@.dom()
                    &&& f.code_map@ == old(self).code_map@
                    &&& forall|k: RoomId|
                        k != rid && old(self).rooms@.contains_key(k) ==> f.rooms@[k] == old(
                            self,
                        ).rooms@[k]
                    &&& f.rooms@[rid].field == r0.field
                    &&& f.rooms@[rid].is_game_over == r0.is_game_over
                    &&& !f.rooms@[rid].clients@.contains(client_id)
                    &&& forall|c: ClientId|
                        c != client_id ==> (f.rooms@[rid].clients@.contains(c)
                            <==> r0.clients@.contains(c))
                    &&& f.rooms@[rid].clients@.len() == r0.clients@.len() - 1
                }
                &&& r0.clients@.len() == 1 ==> f.rooms@ == old(self).rooms@.remove(rid)
                    && f.code_map@ == old(self).code_map@.remove(mix(rid))
            },
    {
        proof {
            broadcast use group_hash_axioms;

        }
        let rido = self.client_map.remove(&client_id);
        match rido {
            None => false,
            Some(rid) => {
                let removed = self.rooms.remove(&rid);
                let mut room = removed.unwrap();
                let ghost r0 = old(self).rooms@[rid];
                proof {
                    assert(room == r0);
                    assert(r0.clients@.contains(client_id));
                }
                let was_there = room.remove_client(client_id);
                proof {
                    assert(was_there);
                }
                if room.is_empty() {
                    let key = mix_exec(rid);
                    self.code_map.remove(&key);
                    proof {
                        broadcast use group_hash_axioms;

                        let o = *old(self);
                        let f = *self;
                        assert(r0.clients@.len() == 1) by {
                            if r0.clients@.len() > 1 {
                                assert(f.rooms@ == o.rooms@.remove(rid));
                            }
                        }
                        assert(forall|c: ClientId|
                            r0.clients@.contains(c) ==> c == client_id) by {
                            assert forall|c: ClientId|
                                r0.clients@.contains(c) implies c == client_id by {
                                let i = choose|i: int|
                                    0 <= i < r0.clients@.len() && r0.clients@[i] == c;
                                assert(r0.clients@[0] == client_id);
                            }
                        }
                        assert forall|c: ClientId| #[trigger]
                            f.client_map@.contains_key(c) implies f.rooms@.contains_key(
                            f.client_map@[c],
                        ) && f.rooms@[f.client_map@[c]].clients@.contains(c) by {
                            assert(o.client_map@.contains_key(c) && c != client_id);
                            assert(o.client_map@[c] != rid);
                        }
                        assert forall|rid2: RoomId, i2: int|
                            f.rooms@.contains_key(rid2) && 0 <= i2
                                < f.rooms@[rid2].clients@.len() implies f.client_map@.contains_key(
                            #[trigger] f.rooms@[rid2].clients@[i2],
                        ) && f.client_map@[f.rooms@[rid2].clients@[i2]] == rid2 by {
                            assert(rid2 != rid);
                            assert(o.rooms@[rid2].clients@[i2] == f.rooms@[rid2].clients@[i2]);
                            assert(o.client_map@[o.rooms@[rid2].clients@[i2]] == rid2);
                            assert(f.rooms@[rid2].clients@[i2] != client_id);
                        }
                        assert forall|rid2: RoomId| #[trigger]
                            f.rooms@.contains_key(rid2) implies {
                            let rr = f.rooms@[rid2];
                            &&& rr.wf()
                            &&& rr.room_id == rid2
                            &&& rr.room_code@ == code_chars(rid2)
                            &&& rr.clients@.len() > 0
                            &&& f.code_map@.contains_key(mix(rid2))
                            &&& f.code_map@[mix(rid2)] == rid2
                        } by {
                            assert(rid2 != rid);
                            assert(mix(rid2) != mix(rid)) by {
                                if mix(rid2) == mix(rid) {
                                    lemma_mix_injective(rid2, rid);
                                }
                            }
                        }
                        assert forall|k: u32| #[trigger]
                            f.code_map@.contains_key(k) implies f.rooms@.contains_key(
                            f.code_map@[k],
                        ) && mix(f.code_map@[k]) == k by {
                            assert(o.code_map@.contains_key(k) && k != mix(rid));
                            assert(o.code_map@[k] != rid);
                        }
                    }
                } else {
                    self.rooms.insert(rid, room);
                    proof {
                        broadcast use group_hash_axioms;

                        let o = *old(self);
                        let f = *self;
                        assert(f.rooms@ =~= o.rooms@.insert(rid, f.rooms@[rid]));
                        assert(f.rooms@.dom() =~= o.rooms@.dom());
                        assert forall|c: ClientId| #[trigger]
                            f.client_map@.contains_key(c) implies f.rooms@.contains_key(
                            f.client_map@[c],
                        ) && f.rooms@[f.client_map@[c]].clients@.contains(c) by {
                            assert(o.client_map@.contains_key(c) && c != client_id);
                            if o.client_map@[c] == rid {
                                assert(r0.clients@.contains(c));
                                assert(f.rooms@[rid].clients@.contains(c));
                            }
                        }
                        assert forall|rid2: RoomId, i2: int|
                            f.rooms@.contains_key(rid2) && 0 <= i2
                                < f.rooms@[rid2].clients@.len() implies f.client_map@.contains_key(
                            #[trigger] f.rooms@[rid2].clients@[i2],
                        ) && f.client_map@[f.rooms@[rid2].clients@[i2]] == rid2 by {
                            if rid2 == rid {
                                let c = f.rooms@[rid].clients@[i2];
                                assert(f.rooms@[rid].clients@.contains(c));
                                assert(c != client_id);
                                assert(r0.clients@.contains(c));
                                let j = choose|j: int|
                                    0 <= j < r0.clients@.len() && r0.clients@[j] == c;
                                assert(o.rooms@[rid].clients@[j] == c);
                                assert(o.client_map@[c] == rid);
                            } else {
                                assert(o.rooms@[rid2].clients@[i2] == f.rooms@[rid2].clients@[i2]);
                                assert(o.client_map@[o.rooms@[rid2].clients@[i2]] == rid2);
                                assert(f.rooms@[rid2].clients@[i2] != client_id);
                            }
                        }
                    }
                }
                true
            },
        }
    }

    /// Routes one parsed command from a connected client to its
    /// room: a reveal or flag acts on that room and broadcasts to
    /// its members; a join with a live room's code moves the client
    /// there (destroying a room left empty) and replays the target
    /// board; a join with an unknown code is answered with a
    /// bad-room-code notice to the sender alone.
    pub fn handle_message(&mut self, client_id: ClientId, message: IncomingMessage) -> (sends: Vec<
        (ClientId, OutgoingMessage),
    >)
        requires
            old(self).wf(),
            old(self).client_map@.contains_key(client_id),
        ensures
            final(self).wf(),
            final(self).client_map@.contains_key(client_id),
            final(self).next_room_id == old(self).next_room_id,
            message@ matches MessageView::Reveal(x, y) ==> {
                let rid = old(self).client_map@[client_id];
                let f = *final(self);
                &&& f.client_map@ == old(self).client_map@
                &&& f.code_map@ == old(self).code_map@
                &&& f.rooms@.dom() == old(self).rooms@.dom()
                &&& forall|k: RoomId|
                    k != rid && old(self).rooms@.contains_key(k) ==> f.rooms@[k] == old(
                        self,
                    ).rooms@[k]
                &&& room_reveal_step(old(self).rooms@[rid], f.rooms@[rid], sends@, x, y)
            },
            message@ matches MessageView::Flag(x, y, on) ==> {
                let rid = old(self).client_map@[client_id];
                let f = *final(self);
                &&& f.client_map@ == old(self).client_map@
                &&& f.code_map@ == old(self).code_map@
                &&& f.rooms@.dom() == old(self).rooms@.dom()
                &&& forall|k: RoomId|
                    k != rid && old(self).rooms@.contains_key(k) ==> f.rooms@[k] == old(
                        self,
                    ).rooms@[k]
                &&& room_flag_step(old(self).rooms@[rid], f.rooms@[rid], sends@, x, y, on)
            },
            message@ matches MessageView::JoinRoom(code) ==> {
                let rid = old(self).client_map@[client_id];
                let k = spec_decode_code(code);
                let f = *final(self);
                &&& (k is None || !old(self).code_map@.contains_key(k->Some_0)) ==> f.rooms@ == old(
                    self,
                ).rooms@ && f.client_map@ == old(self).client_map@ && f.code_map@ == old(
                    self,
                ).code_map@ && sends@ == seq![(client_id, OutgoingMessage::BadRoomCode)]
                &&& (k is Some && old(self).code_map@.contains_key(k->Some_0) && old(
                    self,
                ).code_map@[k->Some_0] == rid) ==> f.rooms@ == old(self).rooms@ && f.client_map@
                    == old(self).client_map@ && f.code_map@ == old(self).code_map@ && sends@.len()
                    == 0
                &&& (k is Some && old(self).code_map@.contains_key(k->Some_0) && old(
                    self,
                ).code_map@[k->Some_0] != rid) ==> {
                    let target = old(self).code_map@[k->Some_0];
                    let r0 = old(self).rooms@[rid];
                    &&& f.client_map@ == old(self).client_map@.remove(client_id).insert(
                        client_id,
                        target,
                    )
                    &&& f.client_map@[client_id] == target
                    &&& f.rooms@.contains_key(target)
                    &&& f.rooms@[target].clients@ == old(self).rooms@[target].clients@.push(
                        client_id,
                    )
                    &&& f.rooms@[target].field == old(self).rooms@[target].field
                    &&& r0.clients@.len() == 1 ==> !f.rooms@.contains_key(rid) && f.code_map@
                        == old(self).code_map@.remove(mix(rid))
                    &&& r0.clients@.len() > 1 ==> f.rooms@.dom() == old(self).rooms@.dom()
                        && f.code_map@ == old(self).code_map@
                    &&& sends@ == addressed(client_id, snapshot_msgs(old(self).rooms@[target]))
                }
            },
            forall|i: int| 0 <= i < sends@.len() ==> msg_ok((#[trigger] sends@[i]).1),
    {
        proof {
            broadcast use group_hash_axioms;

        }
        let rid = *self.client_map.get(&client_id).unwrap();
        match message {
            IncomingMessage::Reveal(x, y) => {
                let removed = self.rooms.remove(&rid);
                let mut room = removed.unwrap();
                let sends = room.reveal_square(x, y);
                self.rooms.insert(rid, room);
                proof {
                    broadcast use group_hash_axioms;

                    let o = *old(self);
                    let f = *self;
                    assert(f.rooms@ =~= o.rooms@.insert(rid, f.rooms@[rid]));
                    assert(f.rooms@.dom() =~= o.rooms@.dom());
                    assert(f.rooms@[rid].clients@ == o.rooms@[rid].clients@);
                    assert forall|c: ClientId| #[trigger]
                        f.client_map@.contains_key(c) implies f.rooms@.contains_key(
                        f.client_map@[c],
                    ) && f.rooms@[f.client_map@[c]].clients@.contains(c) by {
                        if o.client_map@[c] == rid {
                            assert(f.rooms@[rid].clients@ == o.rooms@[rid].clients@);
                        }
                    }
                    assert forall|rid2: RoomId, i2: int|
                        f.rooms@.contains_key(rid2) && 0 <= i2
                            < f.rooms@[rid2].clients@.len() implies f.client_map@.contains_key(
                        #[trigger] f.rooms@[rid2].clients@[i2],
                    ) && f.client_map@[f.rooms@[rid2].clients@[i2]] == rid2 by {
                        assert(o.rooms@[rid2].clients@[i2] == f.rooms@[rid2].clients@[i2]);
                    }
                }
                sends
            },
            IncomingMessage::Flag(x, y, on) => {
                let removed = self.rooms.remove(&rid);
                let mut room = removed.unwrap();
                let sends = room.handle_flag(x, y, on);
                self.rooms.insert(rid, room);
                proof {
                    broadcast use group_hash_axioms;

                    let o = *old(self);
                    let f = *self;
                    assert(f.rooms@ =~= o.rooms@.insert(rid, f.rooms@[rid]));
                    assert(f.rooms@.dom() =~= o.rooms@.dom());
                    assert(f.rooms@[rid].clients@ == o.rooms@[rid].clients@);
                    assert forall|c: ClientId| #[trigger]
                        f.client_map@.contains_key(c) implies f.rooms@.contains_key(
                        f.client_map@[c],
                    ) && f.rooms@[f.client_map@[c]].clients@.contains(c) by {
                        if o.client_map@[c] == rid {
                            assert(f.rooms@[rid].clients@ == o.rooms@[rid].clients@);
                        }
                    }
                    assert forall|rid2: RoomId, i2: int|
                        f.rooms@.contains_key(rid2) && 0 <= i2
                            < f.rooms@[rid2].clients@.len() implies f.client_map@.contains_key(
                        #[trigger] f.rooms@[rid2].clients@[i2],
                    ) && f.client_map@[f.rooms@[rid2].clients@[i2]] == rid2 by {
                        assert(o.rooms@[rid2].clients@[i2] == f.rooms@[rid2].clients@[i2]);
                    }
                }
                sends
            },
            IncomingMessage::JoinRoom(code) => {
                let decoded = decode_code(code.as_str());
                let target_opt: Option<RoomId> = match decoded {
                    Some(key) => {
                        match self.code_map.get(&key) {
                            Some(t) => Some(*t),
                            None => None,
                        }
                    },
                    None => None,
                };
                match target_opt {
                    None => {
                        let mut sends: Vec<(ClientId, OutgoingMessage)> = Vec::new();
                        sends.push((client_id, OutgoingMessage::BadRoomCode));
                        proof {
                            assert(sends@ =~= seq![(client_id, OutgoingMessage::BadRoomCode)]);
                        }
                        sends
                    },
                    Some(target) => {
                        if target == rid {
                            Vec::new()
                        } else {
                            let was = self.remove_client(client_id);
                            proof {
                                assert(was);
                                assert(self.rooms@.contains_key(target)) by {
                                    assert(old(self).rooms@.contains_key(target));
                                }
                                assert(self.rooms@[target] == old(self).rooms@[target]);
                            }
                            let msgs = self.add_client_to_room(client_id, target);
                            let ghost msgseq = msgs@;
                            let mut sends: Vec<(ClientId, OutgoingMessage)> = Vec::new();
                            let mut msgs_left = msgs;
                            let total = msgs_left.len();
                            let mut i: usize = 0;
                            while i < total
                                invariant
                                    0 <= i <= total,
                                    total == msgseq.len(),
                                    msgs_left@ == msgseq.subrange(i as int, total as int),
                                    sends@ =~= addressed(client_id, msgseq.subrange(0, i as int)),
                                decreases total - i,
                            {
                                sends.push((client_id, msgs_left.remove(0)));
                                proof {
                                    assert(msgs_left@ =~= msgseq.subrange(i + 1, total as int));
                                    assert(sends@ =~= addressed(
                                        client_id,
                                        msgseq.subrange(0, i + 1),
                                    ));
                                }
                                i = i + 1;
                            }
                            proof {
                                assert(msgseq.subrange(0, total as int) =~= msgseq);
                                assert(sends@ =~= addressed(client_id, msgseq));
                                let o = *old(self);
                                let f = *self;
                                assert(f.client_map@ =~= o.client_map@.remove(client_id).insert(
                                    client_id,
                                    target,
                                ));
                            }
                            sends
                        }
                    },
                }
            },
        }
    }

    /// The routing invariant in law form: a connected client sits in
    /// the member list of exactly one live room, the one the client
    /// map names.
    pub proof fn lemma_routing_invariant(self, c: ClientId)
        requires
            self.wf(),
            self.client_map@.contains_key(c),
        ensures
            self.rooms@.contains_key(self.client_map@[c]),
            self.rooms@[self.client_map@[c]].clients@.contains(c),
            forall|rid: RoomId|
                #[trigger] self.rooms@.contains_key(rid) && self.rooms@[rid].clients@.contains(c)
                    ==> rid == self.client_map@[c],
    {
        assert forall|rid: RoomId|
            #[trigger] self.rooms@.contains_key(rid) && self.rooms@[rid].clients@.contains(
                c,
            ) implies rid == self.client_map@[c] by {
            let i = choose|i: int|
                0 <= i < self.rooms@[rid].clients@.len() && self.rooms@[rid].clients@[i] == c;
            assert(self.client_map@[self.rooms@[rid].clients@[i]] == rid);
        }
    }

    /// Two distinct live rooms never share a code, and the code of a
    /// room never changes: it is a pure function of the identity.
    pub proof fn lemma_live_room_codes_distinct(self, r1: RoomId, r2: RoomId)
        requires
            self.wf(),
            self.rooms@.contains_key(r1),
            self.rooms@.contains_key(r2),
            r1 != r2,
        ensures
            self.rooms@[r1].room_code@ != self.rooms@[r2].room_code@,
    {
        if self.rooms@[r1].room_code@ == self.rooms@[r2].room_code@ {
            lemma_room_code_injective(r1, r2);
        }
    }
}

/// A board with nothing revealed and nothing flagged replays no
/// reveal and no flag messages.
pub proof fn lemma_empty_snapshots(f: Minefield, k: int)
    requires
        forall|i: int|
            0 <= i < f.squares@.len() ==> !(#[trigger] f.squares@[i]).revealed
                && !f.squares@[i].flagged,
        k <= f.squares@.len(),
    ensures
        reveal_snapshot_upto(f, k) == Seq::<OutgoingMessage>::empty(),
        flag_snapshot_upto(f, k) == Seq::<OutgoingMessage>::empty(),
    decreases k,
{
    if k > 0 {
        lemma_empty_snapshots(f, k - 1);
        assert(reveal_snapshot_upto(f, k) =~= Seq::<OutgoingMessage>::empty());
        assert(flag_snapshot_upto(f, k) =~= Seq::<OutgoingMessage>::empty());
    } else {
        assert(reveal_snapshot_upto(f, k) =~= Seq::<OutgoingMessage>::empty());
        assert(flag_snapshot_upto(f, k) =~= Seq::<OutgoingMessage>::empty());
    }
}

} // verus!
