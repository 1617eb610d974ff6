use vstd::prelude::*;

use crate::world::{blank_tile, World, WorldView};

verus! {

/// Why a state file could not be read.
#[derive(Debug, Clone, Copy, PartialEq, Eq, Structural)]
pub enum StateFileError {
    /// The file ends before its first line break, so it gives no width.
    NoLineEnd,
}

/// Index of the first line break (`0x0A`) at or after `i`.
pub open spec fn line_end_from(s: Seq<u8>, i: int) -> Option<int>
    decreases s.len() - i,
{
    if i < 0 || i >= s.len() {
        None
    } else if s[i] == 0x0A {
        Some(i)
    } else {
        line_end_from(s, i + 1)
    }
}

/// The tile states that the bytes of `s` spell: line breaks are skipped, a
/// space or a full stop is a dead tile, and any other byte a live one.
pub open spec fn tile_states(s: Seq<u8>) -> Seq<bool>
    decreases s.len(),
{
    if s.len() == 0 {
        Seq::empty()
    } else {
        let rest = tile_states(s.drop_last());
        if s.last() == 0x0A {
            rest
        } else {
            rest.push(s.last() != 0x20 && s.last() != 0x2E)
        }
    }
}

/// The world a state file describes: the length of its first line is the
/// width, the tile states after it fill the rows, and an incomplete last row
/// is dropped. `None` where the file has no line break.
pub open spec fn state_file_world(s: Seq<u8>) -> Option<WorldView> {
    match line_end_from(s, 0) {
        None => None,
        Some(w) => {
            let raw = tile_states(s.skip(w + 1));
            let n = raw.len() as int - (raw.len() as int) % w;
            Some(
                WorldView {
                    cells: raw.take(n).map_values(|b: bool| blank_tile(b)),
                    dims: (w as usize, (n / w) as usize),
                    tick: 0,
                },
            )
        }
    }
}

proof fn lemma_line_end_scan(s: Seq<u8>, i: int)
    requires
        0 <= i <= s.len(),
        forall|j: int| 0 <= j < i ==> s[j] != 0x0A,
    ensures
        line_end_from(s, 0) == line_end_from(s, i),
    decreases i,
{
    if i > 0 {
        lemma_line_end_scan(s, i - 1);
    }
}

proof fn lemma_whole_rows(n: int, w: int)
    requires
        0 <= n,
        0 < w,
    ensures
        0 <= n - n % w <= n,
        (n - n % w) / w == n / w,
        w * ((n - n % w) / w) == n - n % w,
{
    vstd::arithmetic::div_mod::lemma_fundamental_div_mod(n, w);
    vstd::arithmetic::div_mod::lemma_mod_bound(n, w);
    let q = n / w;
    vstd::arithmetic::div_mod::lemma_div_multiples_vanish(q, w);
    vstd::arithmetic::mul::lemma_mul_is_commutative(w, q);
}

/// A state file with a first line of length `w > 0` gives a world `w` wide
/// whose height is the number of tile states after that line divided by
/// `w`, rounded down: it holds the first `height * w` states in order, so
/// only whole rows are kept and fewer than `w` states are dropped.
pub proof fn lemma_state_file_rows(s: Seq<u8>)
    requires
        line_end_from(s, 0) matches Some(w) && w > 0,
        s.len() <= usize::MAX,
    ensures
        ({
            let w = line_end_from(s, 0)->Some_0;
            let raw = tile_states(s.skip(w + 1));
            let n = raw.len() as int;
            let v = state_file_world(s)->Some_0;
            &&& state_file_world(s) is Some
            &&& v.dims.0 == w
            &&& v.dims.1 == n / w
            &&& v.cells.len() == w * (n / w)
            &&& n - v.cells.len() < w
            &&& forall|i: int| 0 <= i < v.cells.len() ==> #[trigger] v.cells[i] == blank_tile(raw[i])
        }),
{
    let w = line_end_from(s, 0)->Some_0;
    let raw = tile_states(s.skip(w + 1));
    let n = raw.len() as int;
    lemma_line_end_bound(s, 0);
    lemma_tile_states_len(s.skip(w + 1));
    lemma_whole_rows(n, w);
    vstd::arithmetic::div_mod::lemma_mod_bound(n, w);
    vstd::arithmetic::div_mod::lemma_div_is_ordered_by_denominator(n, 1, w);
    let v = state_file_world(s)->Some_0;
    assert(v.dims.1 == n / w);
    assert(v.cells.len() == w * (n / w));
}

proof fn lemma_tile_states_len(s: Seq<u8>)
    ensures
        tile_states(s).len() <= s.len(),
    decreases s.len(),
{
    if s.len() > 0 {
        lemma_tile_states_len(s.drop_last());
    }
}

proof fn lemma_line_end_bound(s: Seq<u8>, i: int)
    requires
        0 <= i,
    ensures
        line_end_from(s, i) matches Some(w) ==> i <= w < s.len(),
    decreases s.len() - i,
{
    if 0 <= i < s.len() && s[i] != 0x0A {
        lemma_line_end_bound(s, i + 1);
    }
}

/// Reads a world from the contents of a state file, as `state_file_world`
/// describes.
pub fn file_to_world(contents: &[u8]) -> (r: Result<World, StateFileError>)
    requires
        line_end_from(contents@, 0) != Some(0int),
    ensures
        match state_file_world(contents@) {
            None => r == Err::<World, StateFileError>(StateFileError::NoLineEnd),
            Some(v) => r matches Ok(w) && w@ == v,
        },
{
    let len = contents.len();
    let mut w: usize = 0;
    while w < len && contents[w] != 0x0A
        invariant
            len == contents@.len(),
            w <= len,
            forall|j: int| 0 <= j < w ==> contents@[j] != 0x0A,
        decreases len - w,
    {
        w = w + 1;
    }
    proof {
        lemma_line_end_scan(contents@, w as int);
    }
    if w == len {
        return Err(StateFileError::NoLineEnd);
    }
    let ghost rest = contents@.skip(w + 1);
    let mut raw_states: Vec<bool> = Vec::new();
    let mut i: usize = w + 1;
    while i < len
        invariant
            len == contents@.len(),
            w < i <= len,
            rest == contents@.skip(w + 1),
            raw_states@ == tile_states(rest.take(i - w - 1)),
        decreases len - i,
    {
        let c = contents[i];
        proof {
            assert(rest.take(i - w).drop_last() == rest.take(i - w - 1));
            assert(rest.take(i - w).last() == c);
        }
        if c != 0x0A {
            raw_states.push(c != 0x20 && c != 0x2E);
        }
        i = i + 1;
    }
    assert(rest.take(len - w - 1) == rest);
    let n = raw_states.len();
    proof {
        lemma_whole_rows(n as int, w as int);
    }
    let actual_len = n - n % w;
    let mut living: Vec<bool> = Vec::new();
    let mut k: usize = 0;
    while k < actual_len
        invariant
            actual_len <= n,
            n == raw_states@.len(),
            k <= actual_len,
            living@ == raw_states@.take(k as int),
        decreases actual_len - k,
    {
        living.push(raw_states[k]);
        k = k + 1;
        assert(living@ == raw_states@.take(k as int));
    }
    let world = World::from_bools((w, actual_len / w), living).unwrap();
    Ok(world)
}

} // verus!
