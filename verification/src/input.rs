use vstd::prelude::*;

use crate::game::{can_put_brick, spec_can_place, valid_move, GameState, Move};
use crate::brick::{xy, XY};

verus! {

/// Why a line of move text was rejected. Each variant corresponds to one
/// complaint of the interactive prompt.
#[derive(Copy, Clone, Debug, PartialEq, Eq, Structural)]
pub enum MoveInputError {
    /// The line does not consist of exactly two space-separated parts.
    NotTwoParts,
    /// The first part is not an integer (or does not fit a 32-bit one).
    IndexNotInteger,
    /// The first part is an integer, but names no brick of the batch.
    IndexOutOfRange,
    /// The second part is not a column letter `a`-`i` followed by a row
    /// digit `1`-`9`.
    BadPosition,
    /// The move is well formed but the brick cannot be placed there.
    IllegalPlacement,
}

/// An ASCII whitespace byte: space, tab, line feed or carriage return.
pub open spec fn is_ws(c: u8) -> bool {
    c == 32 || c == 9 || c == 10 || c == 13
}

/// The first index at or after `i` holding a non-whitespace byte, or the
/// length if there is none.
pub open spec fn first_non_ws(s: Seq<u8>, i: int) -> int
    decreases s.len() - i,
{
    if i < 0 || i >= s.len() {
        s.len() as int
    } else if is_ws(s[i]) {
        first_non_ws(s, i + 1)
    } else {
        i
    }
}

/// The end (exclusive) of the last non-whitespace byte strictly before `i`,
/// or 0 if there is none.
pub open spec fn last_non_ws_end(s: Seq<u8>, i: int) -> int
    decreases i,
{
    if i <= 0 || i > s.len() {
        0
    } else if is_ws(s[i - 1]) {
        last_non_ws_end(s, i - 1)
    } else {
        i
    }
}

/// The byte string with leading and trailing ASCII whitespace removed.
pub open spec fn trim_spec(s: Seq<u8>) -> Seq<u8> {
    if first_non_ws(s, 0) == s.len() {
        Seq::empty()
    } else {
        s.subrange(first_non_ws(s, 0), last_non_ws_end(s, s.len() as int))
    }
}

/// How many of the first `i` bytes are the space byte.
pub open spec fn count_spaces_upto(s: Seq<u8>, i: int) -> int
    decreases i,
{
    if i <= 0 {
        0
    } else {
        count_spaces_upto(s, i - 1) + if s[i - 1] == 32 {
            1int
        } else {
            0int
        }
    }
}

/// The index of the first space byte, or the length if there is none.
pub open spec fn first_space(s: Seq<u8>, i: int) -> int
    decreases s.len() - i,
{
    if i < 0 || i >= s.len() {
        s.len() as int
    } else if s[i] == 32 {
        i
    } else {
        first_space(s, i + 1)
    }
}

/// All bytes are ASCII digits, and there is at least one.
pub open spec fn all_digits(s: Seq<u8>) -> bool {
    s.len() >= 1 && forall|i: int| 0 <= i < s.len() ==> 48 <= #[trigger] s[i] <= 57
}

/// The value of the first `n` bytes read as a decimal numeral.
pub open spec fn digits_val(s: Seq<u8>, n: int) -> int
    decreases n,
{
    if n <= 0 {
        0
    } else {
        10 * digits_val(s, n - 1) + (s[n - 1] - 48)
    }
}

/// The digit part of an optionally signed numeral: everything after a
/// leading `+` or `-`, if there is one.
pub open spec fn numeral_body(s: Seq<u8>) -> Seq<u8> {
    if s.len() >= 1 && (s[0] == 43 || s[0] == 45) {
        s.subrange(1, s.len() as int)
    } else {
        s
    }
}

/// The byte string is an optionally signed decimal numeral whose value fits
/// a 32-bit signed integer — exactly the strings `i32` parsing accepts.
pub open spec fn parses_as_i32(s: Seq<u8>) -> bool {
    &&& all_digits(numeral_body(s))
    &&& if s.len() >= 1 && s[0] == 45 {
        digits_val(numeral_body(s), numeral_body(s).len() as int) <= 0x8000_0000
    } else {
        digits_val(numeral_body(s), numeral_body(s).len() as int) <= 0x7fff_ffff
    }
}

/// The integer value of a signed decimal numeral.
pub open spec fn i32_val(s: Seq<u8>) -> int {
    if s.len() >= 1 && s[0] == 45 {
        -digits_val(numeral_body(s), numeral_body(s).len() as int)
    } else {
        digits_val(numeral_body(s), numeral_body(s).len() as int)
    }
}

/// What a line of move text means against the given state: either the move
/// it denotes, or the first reason it is rejected.
///
/// The line must hold exactly one space. The part before it, trimmed, must
/// be an integer naming a batch brick 1-based; the part after it, trimmed,
/// must be a column letter `a`-`i` followed by a row digit `1`-`9`; and the
/// named brick must be placeable at the named position.
pub open spec fn spec_parse_move(inp: Seq<u8>, s: crate::game::StateModel) -> Result<
    Move,
    MoveInputError,
> {
    if count_spaces_upto(inp, inp.len() as int) != 1 {
        Err(MoveInputError::NotTwoParts)
    } else {
        let p1 = trim_spec(inp.subrange(0, first_space(inp, 0)));
        let p2 = trim_spec(inp.subrange(first_space(inp, 0) + 1, inp.len() as int));
        if !parses_as_i32(p1) {
            Err(MoveInputError::IndexNotInteger)
        } else if !(1 <= i32_val(p1) <= s.bricks.len()) {
            Err(MoveInputError::IndexOutOfRange)
        } else if !(p2.len() == 2 && 97 <= p2[0] <= 105 && 49 <= p2[1] <= 57) {
            Err(MoveInputError::BadPosition)
        } else {
            let m = Move {
                brick_index: (i32_val(p1) - 1) as i32,
                pos: XY { x: (p2[0] - 97) as i32, y: (p2[1] - 49) as i32 },
            };
            if spec_can_place(s.board, s.bricks[i32_val(p1) - 1], m.pos) {
                Ok(m)
            } else {
                Err(MoveInputError::IllegalPlacement)
            }
        }
    }
}

/// The digit string's value is non-negative.
proof fn lemma_digits_val_nonneg(s: Seq<u8>, n: int)
    requires
        forall|i: int| 0 <= i < n ==> 48 <= #[trigger] s[i] <= 57,
        n <= s.len(),
    ensures
        digits_val(s, n) >= 0,
    decreases n,
{
    if n > 0 {
        lemma_digits_val_nonneg(s, n - 1);
    }
}

/// A copy of the bytes from `start` (inclusive) to `end` (exclusive).
fn subrange_vec(v: &Vec<u8>, start: usize, end: usize) -> (r: Vec<u8>)
    requires
        start <= end <= v@.len(),
    ensures
        r@ == v@.subrange(start as int, end as int),
{
    let mut r: Vec<u8> = Vec::new();
    let mut i = start;
    while i < end
        invariant
            start <= i <= end <= v@.len(),
            r@.len() == i - start,
            forall|j: int| 0 <= j < r@.len() ==> r@[j] == v@[start + j],
        decreases end - i,
    {
        r.push(v[i]);
        i = i + 1;
    }
    proof {
        assert(r@ =~= v@.subrange(start as int, end as int));
    }
    r
}

/// Whether the byte is ASCII whitespace.
fn byte_is_ws(c: u8) -> (r: bool)
    ensures
        r == is_ws(c),
{
    c == 32 || c == 9 || c == 10 || c == 13
}

/// A copy of the bytes with leading and trailing ASCII whitespace removed.
fn trim_bytes(v: &Vec<u8>) -> (r: Vec<u8>)
    ensures
        r@ == trim_spec(v@),
{
    let ghost s = v@;
    let n = v.len();
    let mut a: usize = 0;
    while a < n && byte_is_ws(v[a])
        invariant
            0 <= a <= n,
            n == s.len(),
            s == v@,
            first_non_ws(s, 0) == first_non_ws(s, a as int),
        decreases n - a,
    {
        a = a + 1;
    }
    if a == n {
        assert(first_non_ws(s, 0) == s.len());
        let r: Vec<u8> = Vec::new();
        proof {
            assert(r@ =~= trim_spec(s));
        }
        return r;
    }
    assert(first_non_ws(s, 0) == a);
    let mut b: usize = n;
    while b > a && byte_is_ws(v[b - 1])
        invariant
            a < b <= n,
            n == s.len(),
            s == v@,
            a < n,
            !is_ws(s[a as int]),
            last_non_ws_end(s, n as int) == last_non_ws_end(s, b as int),
        decreases b,
    {
        b = b - 1;
    }
    assert(!is_ws(s[b - 1]));
    assert(last_non_ws_end(s, n as int) == b);
    let r = subrange_vec(v, a, b);
    proof {
        assert(r@ == trim_spec(s));
    }
    r
}

/// Parses an optionally signed decimal numeral: the value when the bytes
/// are a numeral fitting an `i32`, and nothing otherwise.
fn parse_i32_bytes(v: &Vec<u8>) -> (r: Option<i32>)
    ensures
        r == (if parses_as_i32(v@) {
            Some(i32_val(v@) as i32)
        } else {
            None::<i32>
        }),
        parses_as_i32(v@) ==> -0x8000_0000 <= i32_val(v@) <= 0x7fff_ffff,
{
    let ghost s = v@;
    let n = v.len();
    let mut start: usize = 0;
    let mut neg = false;
    if n >= 1 && (v[0] == 43 || v[0] == 45) {
        start = 1;
        neg = v[0] == 45;
    }
    let ghost body = numeral_body(s);
    proof {
        assert(body =~= s.subrange(start as int, n as int));
    }
    if start == n {
        // empty digit part
        assert(!all_digits(body));
        return None;
    }

    let mut acc: u64 = 0;
    let mut over = false;
    let mut i = start;
    while i < n
        invariant
            start <= i <= n,
            n == s.len(),
            s == v@,
            start < n,
            body == numeral_body(s),
            body =~= s.subrange(start as int, n as int),
            forall|j: int| start <= j < i ==> 48 <= #[trigger] s[j] <= 57,
            over ==> digits_val(body, i - start) > 0x8000_0000,
            !over ==> acc == digits_val(body, i - start) && acc <= 0x8000_0000,
        decreases n - i,
    {
        let c = v[i];
        if c < 48 || c > 57 {
            assert(body[i - start] == c);
            assert(!all_digits(body));
            return None;
        }
        proof {
            assert(body[i - start] == s[i as int]);
            lemma_digits_val_nonneg(body, i - start);
        }
        if !over {
            acc = acc * 10 + (c - 48) as u64;
            assert(acc == digits_val(body, i + 1 - start));
            if acc > 0x8000_0000 {
                over = true;
            }
        } else {
            assert(digits_val(body, i + 1 - start) == 10 * digits_val(body, i - start) + (s[i
                as int] - 48));
            assert(digits_val(body, i + 1 - start) > 0x8000_0000);
        }
        i = i + 1;
    }
    assert(all_digits(body));
    if over {
        assert(!parses_as_i32(s));
        return None;
    }
    if neg {
        assert(parses_as_i32(s));
        if acc == 0x8000_0000 {
            Some(i32::MIN)
        } else {
            Some(-(acc as i32))
        }
    } else {
        if acc > 0x7fff_ffff {
            assert(!parses_as_i32(s));
            None
        } else {
            assert(parses_as_i32(s));
            Some(acc as i32)
        }
    }
}

/// Parses one line of move text — `brick_no position`, e.g. `3 d4` — and
/// validates it against the game state, 1-based brick number and `a`-`i` /
/// `1`-`9` coordinates as at the interactive prompt. Returns the move only
/// when the named brick can be placed at the named position; a returned
/// move is always valid to apply.
pub fn parse_user_move(input: &Vec<u8>, game_state: &GameState) -> (r: Result<
    Move,
    MoveInputError,
>)
    requires
        game_state.wf(),
    ensures
        r == spec_parse_move(input@, game_state@),
        r matches Ok(m) ==> valid_move(game_state@, m),
{
    let ghost s = input@;
    let n = input.len();
    let mut spaces: usize = 0;
    let mut sp: usize = n;
    let mut i: usize = 0;
    while i < n
        invariant
            0 <= i <= n,
            n == s.len(),
            s == input@,
            0 <= spaces <= i,
            spaces == count_spaces_upto(s, i as int),
            spaces == 0 ==> sp == n && first_space(s, 0) == first_space(s, i as int),
            spaces > 0 ==> sp == first_space(s, 0) && sp < i,
        decreases n - i,
    {
        if input[i] == 32 {
            if spaces == 0 {
                sp = i;
                assert(first_space(s, i as int) == i);
            }
            spaces = spaces + 1;
        }
        i = i + 1;
    }
    if spaces != 1 {
        return Err(MoveInputError::NotTwoParts);
    }
    assert(sp == first_space(s, 0) && sp < n);

    let head = subrange_vec(input, 0, sp);
    let part1 = trim_bytes(&head);
    let tail = subrange_vec(input, sp + 1, n);
    let part2 = trim_bytes(&tail);

    let brick_no = match parse_i32_bytes(&part1) {
        Some(v) => v,
        None => {
            return Err(MoveInputError::IndexNotInteger);
        },
    };
    let batch_len = game_state.available_bricks.len();
    if brick_no < 1 || brick_no > batch_len as i32 {
        return Err(MoveInputError::IndexOutOfRange);
    }
    if !(part2.len() == 2 && 97 <= part2[0] && part2[0] <= 105 && 49 <= part2[1] && part2[1]
        <= 57) {
        return Err(MoveInputError::BadPosition);
    }
    let pos = xy((part2[0] - 97) as i32, (part2[1] - 49) as i32);
    let brick = &game_state.available_bricks[(brick_no - 1) as usize];
    proof {
        assert(brick.offsets@ == game_state@.bricks[brick_no - 1]);
    }
    if can_put_brick(&game_state.board, brick, &pos) {
        Ok(Move { brick_index: brick_no - 1, pos })
    } else {
        Err(MoveInputError::IllegalPlacement)
    }
}

} // verus!
