//! Between byte offsets and positions in lines.

use vstd::prelude::*;
use vstd::string::StringSliceAdditionalSpecFns;
use vstd::utf8::encode_utf8;

verus! {

/// A place in a text: a line and a byte in the line, both counted from 0.
#[derive(Clone, Copy, Debug, PartialEq, Eq, Structural)]
pub struct Position {
    pub line: u32,
    pub character: u32,
}

/// A stretch of a text, from one position to another.
#[derive(Clone, Copy, Debug, PartialEq, Eq, Structural)]
pub struct Range {
    pub start: Position,
    pub end: Position,
}

/// The byte offsets at which the lines begin that begin among the first `n`
/// bytes, or directly behind them: 0, and the offset behind each line feed.
pub open spec fn line_starts(bytes: Seq<u8>, n: nat) -> Seq<u32>
    decreases n,
{
    if n == 0 || n > bytes.len() {
        seq![0u32]
    } else if bytes[n - 1] == 10 {
        line_starts(bytes, (n - 1) as nat).push(n as u32)
    } else {
        line_starts(bytes, (n - 1) as nat)
    }
}

/// The byte offset at which each line of `contents` begins.
pub fn get_line_prefix_sum(contents: &String) -> (r: Vec<u32>)
    requires
        encode_utf8(contents@).len() <= u32::MAX,
    ensures
        r@ == line_starts(encode_utf8(contents@), encode_utf8(contents@).len()),
        r@.len() > 0,
        r@[0] == 0,
{
    let bytes = contents.as_str().as_bytes();
    let mut sums: Vec<u32> = Vec::new();
    sums.push(0);
    let mut i: usize = 0;
    assert(sums@ =~= line_starts(bytes@, 0));
    while i < bytes.len()
        invariant
            i <= bytes@.len() <= u32::MAX,
            sums@ == line_starts(bytes@, i as nat),
            sums@.len() > 0,
            sums@[0] == 0,
        decreases bytes@.len() - i,
    {
        if bytes[i] == 10 {
            sums.push((i + 1) as u32);
        }
        i += 1;
    }
    sums
}

/// The position of the first line start from `from` on that lies behind
/// `location`, or the number of line starts.
pub open spec fn first_behind(sums: Seq<u32>, location: u32, from: nat) -> nat
    decreases sums.len() - from,
{
    if from >= sums.len() {
        sums.len()
    } else if sums[from as int] > location {
        from
    } else {
        first_behind(sums, location, from + 1)
    }
}

/// The line that holds the byte offset `location`: the last line that
/// begins at or before it.
pub open spec fn line_of(sums: Seq<u32>, location: u32) -> nat {
    (first_behind(sums, location, 0) - 1) as nat
}

/// The position of the byte offset `location`.
pub open spec fn position_of_location(sums: Seq<u32>, location: u32) -> Position {
    Position {
        line: line_of(sums, location) as u32,
        character: (location - sums[line_of(sums, location) as int]) as u32,
    }
}

proof fn lemma_first_behind(sums: Seq<u32>, location: u32, from: nat)
    requires
        from <= sums.len(),
    ensures
        from <= first_behind(sums, location, from) <= sums.len(),
        forall|i: int| from <= i < first_behind(sums, location, from) ==> sums[i] <= location,
    decreases sums.len() - from,
{
    if from < sums.len() && sums[from as int] <= location {
        lemma_first_behind(sums, location, from + 1);
    }
}

/// The position of the byte offset `location` in a text whose lines begin
/// at `line_prefix_sum`.
pub fn location_to_position(line_prefix_sum: &Vec<u32>, location: u32) -> (r: Position)
    requires
        0 < line_prefix_sum@.len() <= u32::MAX,
        line_prefix_sum@[0] <= location,
    ensures
        r == position_of_location(line_prefix_sum@, location),
        r.line < line_prefix_sum@.len(),
        r.character + line_prefix_sum@[r.line as int] == location,
{
    let mut i: usize = 0;
    proof {
        lemma_first_behind(line_prefix_sum@, location, 0);
    }
    while i < line_prefix_sum.len() && line_prefix_sum[i] <= location
        invariant
            i <= line_prefix_sum@.len(),
            first_behind(line_prefix_sum@, location, 0) == first_behind(
                line_prefix_sum@,
                location,
                i as nat,
            ),
        decreases line_prefix_sum@.len() - i,
    {
        i += 1;
    }
    let line = i - 1;
    let column = location - line_prefix_sum[line];
    Position { line: line as u32, character: column }
}

/// The byte offset of a position.
pub fn position_to_location(line_prefix_sum: &Vec<u32>, position: &Position) -> (r: u32)
    requires
        position.line < line_prefix_sum@.len(),
        line_prefix_sum@[position.line as int] + position.character <= u32::MAX,
    ensures
        r == line_prefix_sum@[position.line as int] + position.character,
{
    line_prefix_sum[position.line as usize] + position.character
}

/// The range between two byte offsets of a text.
pub fn location_pair_to_range(contents: &String, start: u32, end: u32) -> (r: Range)
    requires
        encode_utf8(contents@).len() < u32::MAX,
    ensures
        r == (Range {
            start: position_of_location(
                line_starts(encode_utf8(contents@), encode_utf8(contents@).len()),
                start,
            ),
            end: position_of_location(
                line_starts(encode_utf8(contents@), encode_utf8(contents@).len()),
                end,
            ),
        }),
{
    let line_prefix_sum = get_line_prefix_sum(contents);
    proof {
        lemma_line_count(encode_utf8(contents@), encode_utf8(contents@).len());
    }
    let start = location_to_position(&line_prefix_sum, start);
    let end = location_to_position(&line_prefix_sum, end);
    Range { start, end }
}

/// A text has at most one line more than it has bytes.
proof fn lemma_line_count(bytes: Seq<u8>, n: nat)
    requires
        n <= bytes.len(),
    ensures
        line_starts(bytes, n).len() <= n + 1,
    decreases n,
{
    if n > 0 {
        lemma_line_count(bytes, (n - 1) as nat);
    }
}

} // verus!
