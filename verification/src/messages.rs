//! The wire vocabulary: encoding of outgoing events as compact
//! JSON-like strings, and parsing of the line-delimited incoming
//! commands. The grammar is specified over character sequences and
//! the executable code is verified against it.

use crate::game::SquareContents;
use vstd::prelude::*;
use vstd::string::StrSliceExecFns;
use vstd::string::StringExecFns;

verus! {

/// The decimal digit character for `d` in 0..=9.
pub open spec fn spec_digit_char(d: int) -> char {
    if d == 0 {
        '0'
    } else if d == 1 {
        '1'
    } else if d == 2 {
        '2'
    } else if d == 3 {
        '3'
    } else if d == 4 {
        '4'
    } else if d == 5 {
        '5'
    } else if d == 6 {
        '6'
    } else if d == 7 {
        '7'
    } else if d == 8 {
        '8'
    } else {
        '9'
    }
}

/// The decimal rendering of a non-negative number, most significant
/// digit first, without leading zeros (a lone zero for 0).
pub open spec fn spec_dec(n: int) -> Seq<char>
    decreases n,
{
    if n < 10 {
        seq![spec_digit_char(n)]
    } else {
        spec_dec(n / 10) + seq![spec_digit_char(n % 10)]
    }
}

/// The one-character string for the digit `d`.
fn digit_str(d: usize) -> (s: &'static str)
    requires
        d < 10,
    ensures
        s@ == seq![spec_digit_char(d as int)],
{
    proof {
        reveal_strlit("0");
        reveal_strlit("1");
        reveal_strlit("2");
        reveal_strlit("3");
        reveal_strlit("4");
        reveal_strlit("5");
        reveal_strlit("6");
        reveal_strlit("7");
        reveal_strlit("8");
        reveal_strlit("9");
    }
    match d {
        0 => "0",
        1 => "1",
        2 => "2",
        3 => "3",
        4 => "4",
        5 => "5",
        6 => "6",
        7 => "7",
        8 => "8",
        _ => "9",
    }
}

/// Appends the decimal rendering of `n` to `out`.
fn push_decimal(out: &mut String, n: usize)
    ensures
        final(out)@ == old(out)@ + spec_dec(n as int),
    decreases n,
{
    if n >= 10 {
        push_decimal(out, n / 10);
        out.append(digit_str(n % 10));
        proof {
            assert(final(out)@ =~= old(out)@ + spec_dec(n as int));
        }
    } else {
        out.append(digit_str(n));
        proof {
            assert(final(out)@ =~= old(out)@ + spec_dec(n as int));
        }
    }
}

/// The textual rendering of a boolean.
pub open spec fn spec_bool_chars(b: bool) -> Seq<char> {
    if b {
        "true"@
    } else {
        "false"@
    }
}

impl SquareContents {
    /// The one-character wire encoding: the digit for an adjacency
    /// count, `!` for a detonation.
    pub open spec fn spec_encode(self) -> Seq<char> {
        match self {
            SquareContents::NumMines(n) => seq![spec_digit_char(n as int)],
            SquareContents::MineBoom => "!"@,
        }
    }

    pub fn encode(&self) -> (s: &'static str)
        requires
            self matches SquareContents::NumMines(n) ==> n <= 8,
        ensures
            s@ == self.spec_encode(),
    {
        match self {
            SquareContents::NumMines(n) => digit_str(*n as usize),
            SquareContents::MineBoom => "!",
        }
    }
}

/// An event sent to clients, encoded by `encode`.
#[derive(Debug, PartialEq)]
pub enum OutgoingMessage {
    /// A new board: width, height, and mine count.
    NewGame(usize, usize, usize),
    /// The square at (x, y) was revealed with the given contents.
    Reveal(usize, usize, SquareContents),
    /// The room code a client can share to let others join.
    RoomCode(String),
    /// The square at (x, y) was flagged or unflagged.
    Flag(usize, usize, bool),
    /// Rejected board parameters.
    BadBoardParams,
    /// A join request named an unknown room code.
    BadRoomCode,
}

impl OutgoingMessage {
    /// The JSON-like wire encoding of this event.
    pub open spec fn spec_encode(self) -> Seq<char> {
        match self {
            OutgoingMessage::NewGame(w, h, m) => "{\"t\":\"newgame\",\"width\":"@ + spec_dec(
                w as int,
            ) + ",\"height\":"@ + spec_dec(h as int) + ",\"mines\":"@ + spec_dec(m as int) + "}"@,
            OutgoingMessage::Reveal(x, y, c) => "{\"t\":\"reveal\",\"x\":"@ + spec_dec(x as int)
                + ",\"y\":"@ + spec_dec(y as int) + ",\"content\":\""@ + c.spec_encode() + "\"}"@,
            OutgoingMessage::RoomCode(code) => "{\"t\":\"room\",\"id\":\""@ + code@ + "\"}"@,
            OutgoingMessage::Flag(x, y, on) => "{\"t\":\"flag\",\"x\":"@ + spec_dec(x as int)
                + ",\"y\":"@ + spec_dec(y as int) + ",\"on\":"@ + spec_bool_chars(on) + "}"@,
            OutgoingMessage::BadBoardParams => "{\"t\":\"badboard\"}"@,
            OutgoingMessage::BadRoomCode => "{\"t\":\"badcode\"}"@,
        }
    }

    /// Builds a copy of this event. The room code string is cloned;
    /// every other field is plain data.
    pub fn duplicate(&self) -> (r: OutgoingMessage)
        ensures
            r == *self,
    {
        match self {
            OutgoingMessage::NewGame(w, h, m) => OutgoingMessage::NewGame(*w, *h, *m),
            OutgoingMessage::Reveal(x, y, c) => OutgoingMessage::Reveal(*x, *y, *c),
            OutgoingMessage::RoomCode(code) => OutgoingMessage::RoomCode(code.clone()),
            OutgoingMessage::Flag(x, y, on) => OutgoingMessage::Flag(*x, *y, *on),
            OutgoingMessage::BadBoardParams => OutgoingMessage::BadBoardParams,
            OutgoingMessage::BadRoomCode => OutgoingMessage::BadRoomCode,
        }
    }

    /// Encodes this event as its wire string.
    pub fn encode(&self) -> (s: String)
        requires
            self matches OutgoingMessage::Reveal(x, y, c) ==> (c matches SquareContents::NumMines(
                n,
            ) ==> n <= 8),
        ensures
            s@ == self.spec_encode(),
    {
        let mut out = String::new();
        match self {
            OutgoingMessage::NewGame(w, h, m) => {
                out.append("{\"t\":\"newgame\",\"width\":");
                push_decimal(&mut out, *w);
                out.append(",\"height\":");
                push_decimal(&mut out, *h);
                out.append(",\"mines\":");
                push_decimal(&mut out, *m);
                out.append("}");
            },
            OutgoingMessage::Reveal(x, y, c) => {
                out.append("{\"t\":\"reveal\",\"x\":");
                push_decimal(&mut out, *x);
                out.append(",\"y\":");
                push_decimal(&mut out, *y);
                out.append(",\"content\":\"");
                out.append(c.encode());
                out.append("\"}");
            },
            OutgoingMessage::RoomCode(code) => {
                out.append("{\"t\":\"room\",\"id\":\"");
                out.append(code.as_str());
                out.append("\"}");
            },
            OutgoingMessage::Flag(x, y, on) => {
                out.append("{\"t\":\"flag\",\"x\":");
                push_decimal(&mut out, *x);
                out.append(",\"y\":");
                push_decimal(&mut out, *y);
                out.append(",\"on\":");
                if *on {
                    out.append("true");
                } else {
                    out.append("false");
                }
                out.append("}");
            },
            OutgoingMessage::BadBoardParams => {
                out.append("{\"t\":\"badboard\"}");
            },
            OutgoingMessage::BadRoomCode => {
                out.append("{\"t\":\"badcode\"}");
            },
        }
        proof {
            assert(out@ =~= self.spec_encode());
        }
        out
    }
}

/// Index of the first newline at or after `i`, or the length of `s`
/// if there is none.
pub open spec fn find_nl(s: Seq<char>, i: int) -> int
    decreases s.len() - i,
{
    if i < 0 || i >= s.len() {
        s.len() as int
    } else if s[i] == '\n' {
        i
    } else {
        find_nl(s, i + 1)
    }
}

/// A line with a trailing carriage return loses it.
pub open spec fn strip_cr(line: Seq<char>) -> Seq<char> {
    if line.len() > 0 && line.last() == '\r' {
        line.drop_last()
    } else {
        line
    }
}

/// The line beginning at `start`: up to the next newline, without a
/// trailing carriage return.
pub open spec fn line_at(s: Seq<char>, start: int) -> Seq<char> {
    strip_cr(s.subrange(start, find_nl(s, start)))
}

/// Where the line after the one at `start` begins (the length of
/// `s` when the line at `start` is the last).
pub open spec fn next_start(s: Seq<char>, start: int) -> int {
    let e = find_nl(s, start);
    if e < s.len() {
        e + 1
    } else {
        e
    }
}

/// `c` is a decimal digit.
pub open spec fn is_digit(c: char) -> bool {
    '0' <= c && c <= '9'
}

/// The value of the digit `c`.
pub open spec fn digit_val(c: char) -> int {
    c as int - '0' as int
}

/// Every character of `t` is a digit, and there is at least one.
pub open spec fn all_digits(t: Seq<char>) -> bool {
    t.len() > 0 && forall|i: int| 0 <= i < t.len() ==> is_digit(#[trigger] t[i])
}

/// The number denoted by the digit string `t`.
pub open spec fn dec_val(t: Seq<char>) -> int
    decreases t.len(),
{
    if t.len() == 0 {
        0
    } else {
        dec_val(t.drop_last()) * 10 + digit_val(t.last())
    }
}

/// A digit string denotes a non-negative number.
pub proof fn lemma_dec_val_nonneg(t: Seq<char>)
    requires
        forall|i: int| 0 <= i < t.len() ==> is_digit(#[trigger] t[i]),
    ensures
        dec_val(t) >= 0,
    decreases t.len(),
{
    if t.len() > 0 {
        lemma_dec_val_nonneg(t.drop_last());
    }
}

/// A prefix of a digit string denotes at most the whole string's
/// value.
pub proof fn lemma_dec_val_prefix_le(t: Seq<char>, j: int)
    requires
        forall|i: int| 0 <= i < t.len() ==> is_digit(#[trigger] t[i]),
        0 <= j <= t.len(),
    ensures
        dec_val(t.subrange(0, j)) <= dec_val(t),
    decreases t.len() - j,
{
    if j == t.len() {
        assert(t.subrange(0, j) =~= t);
    } else {
        let p = t.subrange(0, j);
        let q = t.subrange(0, j + 1);
        assert(q.drop_last() =~= p);
        lemma_dec_val_nonneg(p);
        assert(dec_val(q) == dec_val(p) * 10 + digit_val(q.last()));
        lemma_dec_val_prefix_le(t, j + 1);
    }
}

/// What a parameter line denotes as a machine-sized number: all
/// digits, with a value that fits.
pub open spec fn spec_parse_usize(t: Seq<char>) -> Option<usize> {
    if all_digits(t) && dec_val(t) <= usize::MAX {
        Some(dec_val(t) as usize)
    } else {
        None
    }
}

/// What a parameter line denotes as a boolean.
pub open spec fn spec_parse_bool(t: Seq<char>) -> Option<bool> {
    if t == "true"@ {
        Some(true)
    } else if t == "false"@ {
        Some(false)
    } else {
        None
    }
}

/// The abstract form of a parsed client command.
pub enum MessageView {
    Reveal(usize, usize),
    JoinRoom(Seq<char>),
    Flag(usize, usize, bool),
}

/// What a wire string denotes: the first line selects the command,
/// the following lines carry one parameter each; anything that does
/// not fit the grammar denotes nothing.
pub open spec fn spec_parse(s: Seq<char>) -> Option<MessageView> {
    let l0 = line_at(s, 0);
    let s1 = next_start(s, 0);
    if l0 == "reveal"@ {
        let l1 = line_at(s, s1);
        let s2 = next_start(s, s1);
        let l2 = line_at(s, s2);
        if spec_parse_usize(l1) is Some && spec_parse_usize(l2) is Some {
            Some(
                MessageView::Reveal(spec_parse_usize(l1)->Some_0, spec_parse_usize(l2)->Some_0),
            )
        } else {
            None
        }
    } else if l0 == "join"@ {
        if s1 < s.len() {
            Some(MessageView::JoinRoom(line_at(s, s1)))
        } else {
            None
        }
    } else if l0 == "flag"@ {
        let l1 = line_at(s, s1);
        let s2 = next_start(s, s1);
        let l2 = line_at(s, s2);
        let s3 = next_start(s, s2);
        let l3 = line_at(s, s3);
        if spec_parse_usize(l1) is Some && spec_parse_usize(l2) is Some && spec_parse_bool(l3)
            is Some {
            Some(
                MessageView::Flag(
                    spec_parse_usize(l1)->Some_0,
                    spec_parse_usize(l2)->Some_0,
                    spec_parse_bool(l3)->Some_0,
                ),
            )
        } else {
            None
        }
    } else {
        None
    }
}

/// A command received from a client, produced by `parse`.
#[derive(Debug, PartialEq)]
pub enum IncomingMessage {
    /// Reveal the square at (x, y).
    Reveal(usize, usize),
    /// Move to the room with this code.
    JoinRoom(String),
    /// Set or clear the flag on the square at (x, y).
    Flag(usize, usize, bool),
}

impl View for IncomingMessage {
    type V = MessageView;

    open spec fn view(&self) -> MessageView {
        match self {
            IncomingMessage::Reveal(x, y) => MessageView::Reveal(*x, *y),
            IncomingMessage::JoinRoom(code) => MessageView::JoinRoom(code@),
            IncomingMessage::Flag(x, y, on) => MessageView::Flag(*x, *y, *on),
        }
    }
}

/// Index of the first newline at or after `from`.
fn find_nl_exec(s: &str, from: usize) -> (j: usize)
    requires
        from <= s@.len(),
    ensures
        j == find_nl(s@, from as int),
        from <= j <= s@.len(),
{
    let n = s.unicode_len();
    let mut i: usize = from;
    while i < n
        invariant
            from <= i <= n,
            n == s@.len(),
            find_nl(s@, from as int) == find_nl(s@, i as int),
        decreases n - i,
    {
        if s.get_char(i) == '\n' {
            return i;
        }
        i = i + 1;
    }
    i
}

/// The end of the line that begins at `start` and runs to the
/// newline at `e`, with a trailing carriage return stripped.
fn line_strip_end(s: &str, start: usize, e: usize) -> (le: usize)
    requires
        start <= e <= s@.len(),
        e == find_nl(s@, start as int),
    ensures
        start <= le <= e,
        s@.subrange(start as int, le as int) == line_at(s@, start as int),
{
    if e > start && s.get_char(e - 1) == '\r' {
        proof {
            assert(s@.subrange(start as int, e as int).drop_last() =~= s@.subrange(
                start as int,
                e as int - 1,
            ));
        }
        e - 1
    } else {
        proof {
            assert(strip_cr(s@.subrange(start as int, e as int)) =~= s@.subrange(
                start as int,
                e as int,
            ));
        }
        e
    }
}

/// Whether the characters of `s` in [start, end) equal `pat`.
fn line_eq(s: &str, start: usize, end: usize, pat: &str) -> (r: bool)
    requires
        start <= end <= s@.len(),
    ensures
        r == (s@.subrange(start as int, end as int) == pat@),
{
    let m = pat.unicode_len();
    if end - start != m {
        proof {
            assert(s@.subrange(start as int, end as int).len() != pat@.len());
        }
        return false;
    }
    let mut i: usize = 0;
    while i < m
        invariant
            0 <= i <= m,
            m == pat@.len(),
            end - start == m,
            start + m <= s@.len(),
            forall|k: int| 0 <= k < i ==> s@[start + k] == pat@[k],
        decreases m - i,
    {
        if s.get_char(start + i) != pat.get_char(i) {
            proof {
                assert(s@.subrange(start as int, end as int)[i as int] != pat@[i as int]);
            }
            return false;
        }
        i = i + 1;
    }
    proof {
        assert(s@.subrange(start as int, end as int) =~= pat@);
    }
    true
}

/// Parses the characters of `s` in [start, end) as a machine-sized
/// decimal number.
fn parse_usize_seg(s: &str, start: usize, end: usize) -> (r: Option<usize>)
    requires
        start <= end <= s@.len(),
    ensures
        r == spec_parse_usize(s@.subrange(start as int, end as int)),
{
    let ghost t = s@.subrange(start as int, end as int);
    if start == end {
        return None;
    }
    let mut acc: usize = 0;
    let mut i: usize = start;
    while i < end
        invariant
            start <= i <= end,
            end <= s@.len(),
            t == s@.subrange(start as int, end as int),
            t.len() == end - start,
            forall|k: int| 0 <= k < i - start ==> is_digit(#[trigger] t[k]),
            acc as int == dec_val(t.subrange(0, i - start)),
        decreases end - i,
    {
        let c = s.get_char(i);
        if !('0' <= c && c <= '9') {
            proof {
                assert(t[i - start] == c);
                assert(!all_digits(t));
            }
            return None;
        }
        let d = (c as u32 - 48) as usize;
        proof {
            assert(t.subrange(0, i + 1 - start).drop_last() =~= t.subrange(0, i - start));
            assert(t.subrange(0, i + 1 - start).last() == c);
            assert(digit_val(c) == d);
        }
        if acc > (usize::MAX - d) / 10 {
            proof {
                assert(dec_val(t.subrange(0, i + 1 - start)) == acc * 10 + d);
                assert(acc * 10 + d > usize::MAX) by (nonlinear_arith)
                    requires
                        acc > (usize::MAX - d) / 10 && d <= 9,
                ;
                if all_digits(t) {
                    lemma_dec_val_prefix_le(t, i + 1 - start);
                }
            }
            return None;
        }
        proof {
            assert(acc * 10 + d <= usize::MAX) by (nonlinear_arith)
                requires
                    acc <= (usize::MAX - d) / 10 && d <= 9 && acc >= 0,
            ;
        }
        acc = acc * 10 + d;
        i = i + 1;
    }
    proof {
        assert(t.subrange(0, end - start) =~= t);
        assert(all_digits(t));
    }
    Some(acc)
}

/// Parses the characters of `s` in [start, end) as a boolean.
fn parse_bool_seg(s: &str, start: usize, end: usize) -> (r: Option<bool>)
    requires
        start <= end <= s@.len(),
    ensures
        r == spec_parse_bool(s@.subrange(start as int, end as int)),
{
    if line_eq(s, start, end, "true") {
        Some(true)
    } else if line_eq(s, start, end, "false") {
        Some(false)
    } else {
        None
    }
}

impl IncomingMessage {
    /// Parses one wire string into a command, or nothing when the
    /// text does not fit the grammar.
    pub fn parse(s: &str) -> (r: Option<IncomingMessage>)
        ensures
            r is Some <==> spec_parse(s@) is Some,
            r is Some ==> r->Some_0@ == spec_parse(s@)->Some_0,
    {
        let n = s.unicode_len();
        let e0 = find_nl_exec(s, 0);
        let l0e = line_strip_end(s, 0, e0);
        let s1 = if e0 < n {
            e0 + 1
        } else {
            e0
        };
        if line_eq(s, 0, l0e, "reveal") {
            let e1 = find_nl_exec(s, s1);
            let l1e = line_strip_end(s, s1, e1);
            let s2 = if e1 < n {
                e1 + 1
            } else {
                e1
            };
            let e2 = find_nl_exec(s, s2);
            let l2e = line_strip_end(s, s2, e2);
            let xo = parse_usize_seg(s, s1, l1e);
            let yo = parse_usize_seg(s, s2, l2e);
            match (xo, yo) {
                (Some(x), Some(y)) => Some(IncomingMessage::Reveal(x, y)),
                _ => None,
            }
        } else if line_eq(s, 0, l0e, "join") {
            if s1 < n {
                let e1 = find_nl_exec(s, s1);
                let l1e = line_strip_end(s, s1, e1);
                let code = s.substring_char(s1, l1e).to_owned();
                Some(IncomingMessage::JoinRoom(code))
            } else {
                None
            }
        } else if line_eq(s, 0, l0e, "flag") {
            let e1 = find_nl_exec(s, s1);
            let l1e = line_strip_end(s, s1, e1);
            let s2 = if e1 < n {
                e1 + 1
            } else {
                e1
            };
            let e2 = find_nl_exec(s, s2);
            let l2e = line_strip_end(s, s2, e2);
            let s3 = if e2 < n {
                e2 + 1
            } else {
                e2
            };
            let e3 = find_nl_exec(s, s3);
            let l3e = line_strip_end(s, s3, e3);
            let xo = parse_usize_seg(s, s1, l1e);
            let yo = parse_usize_seg(s, s2, l2e);
            let bo = parse_bool_seg(s, s3, l3e);
            match (xo, yo, bo) {
                (Some(x), Some(y), Some(on)) => Some(IncomingMessage::Flag(x, y, on)),
                _ => None,
            }
        } else {
            None
        }
    }
}

} // verus!
