//! The line-based text messages exchanged with the game server.

use crate::board::Board;
use crate::side::Side;
use vstd::prelude::*;
use vstd::string::StrSliceExecFns;

verus! {

/// Kind of an incoming message, told by its first word.
#[derive(Debug, PartialEq, Eq, Structural)]
pub enum MessageType {
    Start,
    State,
    End,
}

/// What a state message asks of the player.
#[derive(Debug, PartialEq, Eq, Structural)]
pub enum MoveTurn {
    /// The game is over.
    MoveEnd,
    /// The last move (`-1` for a swap) and whether it is now this player's turn.
    Move(i8, bool),
}

pub open spec fn start_word() -> Seq<char> {
    seq!['S', 'T', 'A', 'R', 'T']
}

pub open spec fn change_word() -> Seq<char> {
    seq!['C', 'H', 'A', 'N', 'G', 'E']
}

pub open spec fn end_word() -> Seq<char> {
    seq!['E', 'N', 'D']
}

pub open spec fn south_word() -> Seq<char> {
    seq!['S', 'o', 'u', 't', 'h']
}

pub open spec fn north_word() -> Seq<char> {
    seq!['N', 'o', 'r', 't', 'h']
}

pub open spec fn swap_word() -> Seq<char> {
    seq!['S', 'W', 'A', 'P']
}

pub open spec fn you_word() -> Seq<char> {
    seq!['Y', 'O', 'U']
}

pub open spec fn opp_word() -> Seq<char> {
    seq!['O', 'P', 'P']
}

pub open spec fn is_prefix(p: Seq<char>, s: Seq<char>) -> bool {
    p.len() <= s.len() && s.subrange(0, p.len() as int) == p
}

pub open spec fn is_suffix(p: Seq<char>, s: Seq<char>) -> bool {
    p.len() <= s.len() && s.subrange(s.len() - p.len(), s.len() as int) == p
}

/// The pieces of `s` between occurrences of `sep`; always at least one.
pub open spec fn split_on(s: Seq<char>, sep: char) -> Seq<Seq<char>>
    decreases s.len(),
{
    if s.len() == 0 {
        seq![Seq::empty()]
    } else {
        let rest = split_on(s.drop_last(), sep);
        if s.last() == sep {
            rest.push(Seq::empty())
        } else {
            rest.update(rest.len() - 1, rest.last().push(s.last()))
        }
    }
}

pub proof fn lemma_split_nonempty(s: Seq<char>, sep: char)
    ensures
        split_on(s, sep).len() >= 1,
    decreases s.len(),
{
    if s.len() > 0 {
        lemma_split_nonempty(s.drop_last(), sep);
    }
}

pub open spec fn is_digit(c: char) -> bool {
    '0' <= c <= '9'
}

pub open spec fn digit_value(c: char) -> int {
    c as int - '0' as int
}

pub open spec fn all_digits(s: Seq<char>) -> bool {
    forall|i: int| 0 <= i < s.len() ==> is_digit(#[trigger] s[i])
}

/// The number that the decimal digits `s` write.
pub open spec fn digits_value(s: Seq<char>) -> int
    decreases s.len(),
{
    if s.len() == 0 {
        0
    } else {
        digits_value(s.drop_last()) * 10 + digit_value(s.last())
    }
}

/// A seed count: an optional `+` and at least one digit, at most 255.
pub open spec fn parse_count(s: Seq<char>) -> Option<u8> {
    let d = if s.len() > 0 && s[0] == '+' {
        s.drop_first()
    } else {
        s
    };
    if d.len() > 0 && all_digits(d) && digits_value(d) <= 255 {
        Some(digits_value(d) as u8)
    } else {
        None
    }
}

/// A move number: an optional sign and at least one digit, within `-128..=127`.
pub open spec fn parse_move_number(s: Seq<char>) -> Option<i8> {
    let neg = s.len() > 0 && s[0] == '-';
    let d = if s.len() > 0 && (s[0] == '+' || s[0] == '-') {
        s.drop_first()
    } else {
        s
    };
    if d.len() > 0 && all_digits(d) {
        let v = if neg {
            -digits_value(d)
        } else {
            digits_value(d)
        };
        if -128 <= v <= 127 {
            Some(v as i8)
        } else {
            None
        }
    } else {
        None
    }
}

/// The move field: a move number, or `SWAP` for `-1`.
pub open spec fn parse_move_field(s: Seq<char>) -> Option<i8> {
    if s == swap_word() {
        Some(-1i8)
    } else {
        parse_move_number(s)
    }
}

/// The turn field together with the move it refers to.
pub open spec fn parse_turn(s: Seq<char>, m: i8) -> Option<MoveTurn> {
    if s == you_word() {
        Some(MoveTurn::Move(m, true))
    } else if s == opp_word() {
        Some(MoveTurn::Move(m, false))
    } else if s == end_word() {
        Some(MoveTurn::MoveEnd)
    } else {
        None
    }
}

/// The snapshot field holds `2 * (n + 1)` seed counts.
pub open spec fn snapshot_ok(parts: Seq<Seq<char>>, n: int) -> bool {
    parts.len() == 2 * (n + 1) && forall|k: int| 0 <= k < parts.len() ==> #[trigger] parse_count(
        parts[k],
    ) is Some
}

/// The seed counts of a well-formed snapshot field.
pub open spec fn snapshot_counts(parts: Seq<Seq<char>>) -> Seq<u8> {
    Seq::new(parts.len(), |k: int| parse_count(parts[k])->0)
}

/// The board that a snapshot describes: North's pits, North's store, South's pits,
/// South's store.
pub open spec fn snapshot_cells(v: Seq<u8>, n: int) -> Seq<Seq<u8>> {
    seq![seq![v[2 * n + 1]] + v.subrange(n + 1, 2 * n + 1), seq![v[n]] + v.subrange(0, n)]
}

/// A state message is four `;`-separated fields whose move, snapshot and turn parse.
pub open spec fn state_message_ok(s: Seq<char>, n: int) -> bool {
    let f = split_on(s, ';');
    f.len() == 4 && parse_move_field(f[1]) is Some && snapshot_ok(split_on(f[2], ','), n)
        && parse_turn(f[3], parse_move_field(f[1])->0) is Some
}

/// What a well-formed state message asks of the player.
pub open spec fn state_message_turn(s: Seq<char>) -> MoveTurn {
    let f = split_on(s, ';');
    parse_turn(f[3], parse_move_field(f[1])->0)->0
}

/// The board that a well-formed state message describes.
pub open spec fn state_message_cells(s: Seq<char>, n: int) -> Seq<Seq<u8>> {
    snapshot_cells(snapshot_counts(split_on(split_on(s, ';')[2], ',')), n)
}

/// Decimal digits of `n`, most significant first.
pub open spec fn decimal(n: nat) -> Seq<char>
    decreases n,
{
    if n < 10 {
        seq![('0' as u8 + n as u8) as char]
    } else {
        decimal(n / 10).push(('0' as u8 + (n % 10) as u8) as char)
    }
}

/// The characters of `s`.
fn chars_of(s: &str) -> (r: Vec<char>)
    ensures
        r@ == s@,
{
    let len = s.unicode_len();
    let mut r: Vec<char> = Vec::new();
    let mut i: usize = 0;
    while i < len
        invariant
            len == s@.len(),
            i <= len,
            r@ == s@.subrange(0, i as int),
        decreases len - i,
    {
        r.push(s.get_char(i));
        i = i + 1;
        proof {
            assert(r@ =~= s@.subrange(0, i as int));
        }
    }
    proof {
        assert(r@ =~= s@);
    }
    r
}

fn starts_with(s: &Vec<char>, p: &Vec<char>) -> (r: bool)
    ensures
        r == is_prefix(p@, s@),
{
    if p.len() > s.len() {
        return false;
    }
    let mut i: usize = 0;
    while i < p.len()
        invariant
            p@.len() <= s@.len(),
            i <= p@.len(),
            forall|k: int| 0 <= k < i ==> s@[k] == p@[k],
        decreases p.len() - i,
    {
        if s[i] != p[i] {
            assert(s@.subrange(0, p@.len() as int)[i as int] != p@[i as int]);
            return false;
        }
        i = i + 1;
    }
    assert(s@.subrange(0, p@.len() as int) =~= p@);
    true
}

fn ends_with(s: &Vec<char>, p: &Vec<char>) -> (r: bool)
    ensures
        r == is_suffix(p@, s@),
{
    if p.len() > s.len() {
        return false;
    }
    let off = s.len() - p.len();
    let mut i: usize = 0;
    while i < p.len()
        invariant
            p@.len() <= s@.len(),
            off == s@.len() - p@.len(),
            s@.len() == s.len(),
            i <= p@.len(),
            forall|k: int| 0 <= k < i ==> s@[off + k] == p@[k],
        decreases p.len() - i,
    {
        if s[off + i] != p[i] {
            assert(s@.subrange(off as int, s@.len() as int)[i as int] != p@[i as int]);
            return false;
        }
        i = i + 1;
    }
    assert(s@.subrange(off as int, s@.len() as int) =~= p@);
    true
}

fn same_chars(a: &Vec<char>, b: &Vec<char>) -> (r: bool)
    ensures
        r == (a@ == b@),
{
    if a.len() != b.len() {
        return false;
    }
    let r = starts_with(a, b);
    proof {
        if r {
            assert(a@.subrange(0, a@.len() as int) =~= a@);
        } else {
            assert(a@.subrange(0, a@.len() as int) =~= a@);
        }
    }
    r
}

pub fn get_message_type(message: &str) -> (r: Result<MessageType, &'static str>)
    ensures
        is_prefix(start_word(), message@) ==> r == Ok::<MessageType, &'static str>(
            MessageType::Start,
        ),
        !is_prefix(start_word(), message@) && is_prefix(change_word(), message@) ==> r == Ok::<
            MessageType,
            &'static str,
        >(MessageType::State),
        !is_prefix(start_word(), message@) && !is_prefix(change_word(), message@) && is_prefix(
            end_word(),
            message@,
        ) ==> r == Ok::<MessageType, &'static str>(MessageType::End),
        r is Err <==> !is_prefix(start_word(), message@) && !is_prefix(change_word(), message@)
            && !is_prefix(end_word(), message@),
{
    let m = chars_of(message);
    if starts_with(&m, &vec!['S', 'T', 'A', 'R', 'T']) {
        return Ok(MessageType::Start);
    } else if starts_with(&m, &vec!['C', 'H', 'A', 'N', 'G', 'E']) {
        return Ok(MessageType::State);
    } else if starts_with(&m, &vec!['E', 'N', 'D']) {
        return Ok(MessageType::End);
    }
    Err("Unknown message type")
}

/// `Ok(true)` when the player starts as South, `Ok(false)` when as North.
pub fn interpret_start_message(message: &str) -> (r: Result<bool, &'static str>)
    ensures
        is_suffix(south_word(), message@) ==> r == Ok::<bool, &'static str>(true),
        !is_suffix(south_word(), message@) && is_suffix(north_word(), message@) ==> r == Ok::<
            bool,
            &'static str,
        >(false),
        r is Err <==> !is_suffix(south_word(), message@) && !is_suffix(north_word(), message@),
{
    let m = chars_of(message);
    if ends_with(&m, &vec!['S', 'o', 'u', 't', 'h']) {
        return Ok(true);
    } else if ends_with(&m, &vec!['N', 'o', 'r', 't', 'h']) {
        return Ok(false);
    }
    Err("Unknown start message format")
}

/// The pieces of `s` between occurrences of `sep`.
fn split_fields(s: &Vec<char>, sep: char) -> (r: Vec<Vec<char>>)
    ensures
        r@.len() == split_on(s@, sep).len(),
        forall|k: int| 0 <= k < r@.len() ==> #[trigger] r@[k]@ == split_on(s@, sep)[k],
{
    let mut done: Vec<Vec<char>> = Vec::new();
    let mut cur: Vec<char> = Vec::new();
    let mut i: usize = 0;
    proof {
        assert(s@.subrange(0, 0) =~= Seq::<char>::empty());
    }
    while i < s.len()
        invariant
            i <= s@.len(),
            done@.len() + 1 == split_on(s@.subrange(0, i as int), sep).len(),
            forall|k: int|
                0 <= k < done@.len() ==> #[trigger] done@[k]@ == split_on(
                    s@.subrange(0, i as int),
                    sep,
                )[k],
            cur@ == split_on(s@.subrange(0, i as int), sep)[done@.len() as int],
        decreases s@.len() - i,
    {
        let c = s[i];
        proof {
            assert(s@.subrange(0, i + 1).drop_last() =~= s@.subrange(0, i as int));
            lemma_split_nonempty(s@.subrange(0, i as int), sep);
        }
        if c == sep {
            done.push(cur);
            cur = Vec::new();
        } else {
            cur.push(c);
        }
        i = i + 1;
    }
    proof {
        assert(s@.subrange(0, s@.len() as int) =~= s@);
    }
    done.push(cur);
    done
}

/// The value of the digits `f[start..]`, capped at 256; `None` unless they are all
/// digits and there is at least one.
fn digits_capped(f: &Vec<char>, start: usize) -> (r: Option<u32>)
    ensures
        r is Some <==> (start < f@.len() && all_digits(f@.subrange(start as int, f@.len() as int))),
        r is Some ==> r->0 == if digits_value(f@.subrange(start as int, f@.len() as int)) < 256 {
            digits_value(f@.subrange(start as int, f@.len() as int))
        } else {
            256
        },
{
    if start >= f.len() {
        return None;
    }
    let mut acc: u32 = 0;
    let mut i: usize = start;
    proof {
        assert(f@.subrange(start as int, start as int) =~= Seq::<char>::empty());
    }
    while i < f.len()
        invariant
            start <= i <= f@.len(),
            all_digits(f@.subrange(start as int, i as int)),
            acc == if digits_value(f@.subrange(start as int, i as int)) < 256 {
                digits_value(f@.subrange(start as int, i as int))
            } else {
                256
            },
        decreases f@.len() - i,
    {
        let c = f[i];
        let ghost before = f@.subrange(start as int, i as int);
        let ghost after = f@.subrange(start as int, i + 1);
        proof {
            assert(after.drop_last() =~= before);
            assert(after.last() == c);
        }
        if !('0' <= c && c <= '9') {
            assert(!is_digit(after[after.len() - 1]));
            return None;
        }
        let dv: u32 = (c as u32) - ('0' as u32);
        if acc < 256 {
            acc = acc * 10 + dv;
            if acc > 256 {
                acc = 256;
            }
        }
        proof {
            assert forall|k: int| 0 <= k < after.len() implies is_digit(#[trigger] after[k]) by {
                if k < before.len() {
                    assert(after[k] == before[k]);
                }
            }
        }
        i = i + 1;
    }
    Some(acc)
}

fn parse_seed_count(f: &Vec<char>) -> (r: Option<u8>)
    ensures
        r == parse_count(f@),
{
    let start: usize = if f.len() > 0 && f[0] == '+' {
        1
    } else {
        0
    };
    proof {
        assert(f@.drop_first() =~= f@.subrange(1, f@.len() as int));
        assert(f@ =~= f@.subrange(0, f@.len() as int));
    }
    match digits_capped(f, start) {
        Some(v) => {
            if v <= 255 {
                Some(v as u8)
            } else {
                None
            }
        },
        None => None,
    }
}

fn parse_move(f: &Vec<char>) -> (r: Option<i8>)
    ensures
        r == parse_move_number(f@),
{
    let neg = f.len() > 0 && f[0] == '-';
    let start: usize = if f.len() > 0 && (f[0] == '+' || f[0] == '-') {
        1
    } else {
        0
    };
    proof {
        assert(f@.drop_first() =~= f@.subrange(1, f@.len() as int));
        assert(f@ =~= f@.subrange(0, f@.len() as int));
    }
    match digits_capped(f, start) {
        Some(v) => {
            if neg && v <= 128 {
                Some((0 - (v as i32)) as i8)
            } else if !neg && v <= 127 {
                Some(v as i8)
            } else {
                None
            }
        },
        None => None,
    }
}

/// Writes the counts of a snapshot into the board.
fn load_snapshot(board: &mut Board, counts: &Vec<u8>)
    requires
        old(board).wf(),
        counts@.len() == 2 * (old(board).size() + 1),
    ensures
        final(board).wf(),
        final(board).size() == old(board).size(),
        final(board).cells() == snapshot_cells(counts@, old(board).size() as int),
{
    let n = board.get_no_of_holes();
    let ghost g0 = board.cells();
    let mut i: usize = 0;
    while i < n
        invariant
            board.wf(),
            board.size() == n,
            counts@.len() == 2 * (n + 1),
            i <= n,
            board.cells()[0] == g0[0],
            forall|c: int|
                0 <= c <= n ==> #[trigger] board.cells()[1][c] == if 1 <= c <= i {
                    counts@[c - 1]
                } else {
                    g0[1][c]
                },
        decreases n - i,
    {
        let _ = board.set_seeds(Side::North, i + 1, counts[i]);
        i = i + 1;
    }
    board.set_seeds_in_store(Side::North, counts[n]);
    let mut i: usize = 0;
    while i < n
        invariant
            board.wf(),
            board.size() == n,
            counts@.len() == 2 * (n + 1),
            i <= n,
            forall|c: int|
                0 <= c <= n ==> #[trigger] board.cells()[1][c] == if c == 0 {
                    counts@[n as int]
                } else {
                    counts@[c - 1]
                },
            forall|c: int|
                1 <= c <= n ==> #[trigger] board.cells()[0][c] == if c <= i {
                    counts@[c + n]
                } else {
                    g0[0][c]
                },
        decreases n - i,
    {
        let _ = board.set_seeds(Side::South, i + 1, counts[i + n + 1]);
        i = i + 1;
    }
    board.set_seeds_in_store(Side::South, counts[2 * n + 1]);
    proof {
        let want = snapshot_cells(counts@, n as int);
        assert(board.cells()[0] =~= want[0]);
        assert(board.cells()[1] =~= want[1]);
        assert(board.cells() =~= want);
    }
}

/// Reads a state message: the move just made, the board (written into `board`), and
/// whose turn it is. The board is left as it was when the message is malformed.
pub fn interpret_state_message(message: &str, board: &mut Board) -> (r: Result<
    MoveTurn,
    &'static str,
>)
    requires
        old(board).wf(),
    ensures
        final(board).wf(),
        final(board).size() == old(board).size(),
        r is Ok <==> state_message_ok(message@, old(board).size() as int),
        r is Ok ==> r == Ok::<MoveTurn, &'static str>(state_message_turn(message@)),
        r is Ok ==> final(board).cells() == state_message_cells(
            message@,
            old(board).size() as int,
        ),
        r is Err ==> final(board).cells() == old(board).cells(),
{
    let ghost n = board.size() as int;
    let m = chars_of(message);
    let s = split_fields(&m, ';');
    if s.len() != 4 {
        return Err("Incorrect state message");
    }
    let mv: i8 = if same_chars(&s[1], &vec!['S', 'W', 'A', 'P']) {
        -1
    } else {
        match parse_move(&s[1]) {
            Some(v) => v,
            None => {
                return Err("Incorrect move in state message");
            },
        }
    };
    let board_parts = split_fields(&s[2], ',');
    let holes = board.get_no_of_holes();
    if board_parts.len() != 2 * (holes + 1) {
        return Err("Incorrect length of board in state message");
    }
    let ghost parts = split_on(split_on(message@, ';')[2], ',');
    let mut counts: Vec<u8> = Vec::new();
    let mut k: usize = 0;
    while k < board_parts.len()
        invariant
            board.wf(),
            board.cells() == old(board).cells(),
            board.size() == old(board).size(),
            parts == split_on(split_on(message@, ';')[2], ','),
            n == old(board).size(),
            board_parts@.len() == parts.len(),
            forall|j: int| 0 <= j < parts.len() ==> #[trigger] board_parts@[j]@ == parts[j],
            k <= board_parts@.len(),
            counts@.len() == k,
            forall|j: int|
                0 <= j < k ==> #[trigger] parse_count(board_parts@[j]@) is Some && counts@[j]
                    == parse_count(board_parts@[j]@)->0,
        decreases board_parts@.len() - k,
    {
        match parse_seed_count(&board_parts[k]) {
            Some(v) => counts.push(v),
            None => {
                proof {
                    assert(board_parts@[k as int]@ == parts[k as int]);
                    assert(parse_count(parts[k as int]) is None);
                    assert(!snapshot_ok(parts, n));
                    assert(!state_message_ok(message@, n));
                }
                return Err("Incorrect seed count in state message");
            },
        }
        k = k + 1;
    }
    let move_turn = if same_chars(&s[3], &vec!['Y', 'O', 'U']) {
        MoveTurn::Move(mv, true)
    } else if same_chars(&s[3], &vec!['O', 'P', 'P']) {
        MoveTurn::Move(mv, false)
    } else if same_chars(&s[3], &vec!['E', 'N', 'D']) {
        MoveTurn::MoveEnd
    } else {
        return Err("Incorrect end of state message");
    };
    proof {
        let parts = split_on(split_on(message@, ';')[2], ',');
        assert(board_parts@.len() == parts.len());
        assert forall|j: int| 0 <= j < parts.len() implies #[trigger] parse_count(parts[j]) is Some by {
            assert(board_parts@[j]@ == parts[j]);
        }
        assert forall|j: int| 0 <= j < parts.len() implies #[trigger] counts@[j] == snapshot_counts(parts)[j] by {
            assert(board_parts@[j]@ == parts[j]);
        }
        assert(counts@ =~= snapshot_counts(parts));
    }
    load_snapshot(board, &counts);
    Ok(move_turn)
}

/// Relies on `format!` writing a `usize` in decimal digits.
#[verifier::external_body]
fn move_line(hole: usize) -> (r: String)
    ensures
        r@ == seq!['M', 'O', 'V', 'E', ';'] + decimal(hole as nat) + seq!['\n'],
{
    format!("MOVE;{}\n", hole)
}

/// The message that plays pit `hole`.
pub fn create_move_message(hole: usize) -> (r: String)
    ensures
        r@ == seq!['M', 'O', 'V', 'E', ';'] + decimal(hole as nat) + seq!['\n'],
{
    move_line(hole)
}

/// The message that takes the opponent's side under the pie rule.
pub fn create_swap_message() -> (r: String)
    ensures
        r@ == "SWAP\n"@,
{
    broadcast use vstd::string::to_string_from_display_ensures_for_str;

    "SWAP\n".to_string()
}

} // verus!
