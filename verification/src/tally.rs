//! Turning a tally of initials into ucids: for each pair of initials, in alphabetical
//! order, the ucids with those initials and the serials 1, 2, ... up to its count.
use vstd::prelude::*;
use crate::ucid::{is_ucid, ucid_value, digits_value, unsigned_digits, all_digits, is_ascii_digit};

verus! {

/// Number of pairs of initials: one cell of the tally for each.
pub const CELLS: usize = 676;

/// Largest serial that fits in three digits.
pub const MAX_SERIAL: u32 = 999;

/// The lowercase letter `a` places after `'a'`.
pub open spec fn letter_char(a: int) -> char {
    (97 + a) as char
}

/// The decimal digit `d`.
pub open spec fn digit_char(d: int) -> char {
    (48 + d) as char
}

/// The ucid with initials `a` and `b` (letters counted from 0) and serial `n`, written
/// with three digits, zero-padded.
pub open spec fn ucid_text(a: int, b: int, n: int) -> Seq<char> {
    seq![
        letter_char(a),
        letter_char(b),
        digit_char(n / 100),
        digit_char((n / 10) % 10),
        digit_char(n % 10),
    ]
}

/// The ucids of tally cell `cell` (initials `cell / 26` and `cell % 26`) for a count of
/// `count`: serials 1 to `count`.
pub open spec fn cell_ucids(cell: int, count: int) -> Seq<Seq<char>> {
    Seq::new(count as nat, |j: int| ucid_text(cell / 26, cell % 26, j + 1))
}

/// The ucids of the first `cells` cells of the tally, cell after cell.
pub open spec fn ucid_list(counts: Seq<u32>, cells: int) -> Seq<Seq<char>>
    decreases cells,
{
    if cells <= 0 {
        Seq::empty()
    } else {
        ucid_list(counts, cells - 1) + cell_ucids(cells - 1, counts[cells - 1] as int)
    }
}

/// The sum of the first `cells` counts of the tally.
pub open spec fn count_sum(counts: Seq<u32>, cells: int) -> int
    decreases cells,
{
    if cells <= 0 {
        0
    } else {
        count_sum(counts, cells - 1) + counts[cells - 1]
    }
}

/// A tally of initials: one count per pair, none above `MAX_SERIAL`.
pub open spec fn is_tally(counts: Seq<u32>) -> bool {
    &&& counts.len() == CELLS
    &&& forall|c: int| 0 <= c < CELLS ==> #[trigger] counts[c] <= MAX_SERIAL
}

/// The tally cell that a ucid's initials name.
pub open spec fn text_cell(x: Seq<char>) -> int {
    (x[0] as int - 97) * 26 + (x[1] as int - 97)
}

/// The serial of a ucid written with three digits.
pub open spec fn text_serial(x: Seq<char>) -> int {
    (x[2] as int - 48) * 100 + (x[3] as int - 48) * 10 + (x[4] as int - 48)
}

proof fn lemma_digits(n: int)
    requires
        0 <= n < 1000,
    ensures
        0 <= n / 100 < 10,
        0 <= (n / 10) % 10 < 10,
        0 <= n % 10 < 10,
        (n / 100) * 100 + ((n / 10) % 10) * 10 + n % 10 == n,
{
    assert(0 <= n / 100 < 10) by (nonlinear_arith)
        requires
            0 <= n < 1000,
    ;
    assert((n / 100) * 100 + ((n / 10) % 10) * 10 + n % 10 == n) by (nonlinear_arith)
        requires
            0 <= n < 1000,
    ;
}

/// A ucid text gives back its initials and serial.
pub proof fn lemma_ucid_text_decodes(a: int, b: int, n: int)
    requires
        0 <= a < 26,
        0 <= b < 26,
        0 <= n < 1000,
    ensures
        ucid_text(a, b, n).len() == 5,
        text_cell(ucid_text(a, b, n)) == a * 26 + b,
        text_serial(ucid_text(a, b, n)) == n,
{
    lemma_digits(n);
}

/// The ucid with initials `a`, `b` and serial `n` is a well-formed ucid, and its key is
/// `(a * 26 + b) * 26000 + n`.
pub proof fn lemma_ucid_text_is_ucid(a: int, b: int, n: int)
    requires
        0 <= a < 26,
        0 <= b < 26,
        0 <= n < 1000,
    ensures
        is_ucid(ucid_text(a, b, n)),
        ucid_value(ucid_text(a, b, n)) == (a * 26 + b) * 26000 + n,
{
    lemma_digits(n);
    let x = ucid_text(a, b, n);
    let d = x.skip(2);
    assert(unsigned_digits(d) == d);
    assert(all_digits(d)) by {
        assert forall|i: int| 0 <= i < d.len() implies #[trigger] is_ascii_digit(d[i]) by {
            assert(d[i] == x[i + 2]);
        }
    }
    let d1 = d.drop_last().drop_last();
    assert(d1.len() == 1);
    assert(d1.last() == x[2]);
    assert(d1.drop_last() =~= Seq::<char>::empty());
    assert(digits_value(d1.drop_last()) == 0);
    assert(digits_value(d1) == n / 100);
    assert(digits_value(d.drop_last()) == (n / 100) * 10 + (n / 10) % 10);
    assert(digits_value(d) == ((n / 100) * 10 + (n / 10) % 10) * 10 + n % 10);
}

/// The ucids of a tally: as many as the counts add up to, each a well-formed ucid of a
/// cell before `cells` with a serial from 1 to the cell's count, and no two alike.
pub proof fn lemma_ucid_list(counts: Seq<u32>, cells: int)
    requires
        is_tally(counts),
        0 <= cells <= CELLS,
    ensures
        ucid_list(counts, cells).len() == count_sum(counts, cells),
        ucid_list(counts, cells).no_duplicates(),
        forall|i: int, j: int|
            0 <= i < ucid_list(counts, cells).len() && 0 <= j < ucid_list(counts, cells).len()
                && i != j ==> ucid_value(#[trigger] ucid_list(counts, cells)[i]) != ucid_value(
                #[trigger] ucid_list(counts, cells)[j],
            ),
        forall|k: int|
            0 <= k < ucid_list(counts, cells).len() ==> {
                let x = #[trigger] ucid_list(counts, cells)[k];
                &&& is_ucid(x)
                &&& x.len() == 5
                &&& 0 <= text_cell(x) < cells
                &&& 1 <= text_serial(x) <= counts[text_cell(x)]
                &&& x == ucid_text(text_cell(x) / 26, text_cell(x) % 26, text_serial(x))
            },
    decreases cells,
{
    if cells > 0 {
        lemma_ucid_list(counts, cells - 1);
        let prev = ucid_list(counts, cells - 1);
        let c = cells - 1;
        let cur = cell_ucids(c, counts[c] as int);
        let all = ucid_list(counts, cells);
        assert(all == prev + cur);
        assert forall|j: int| 0 <= j < cur.len() implies {
            let x = #[trigger] cur[j];
            &&& is_ucid(x)
            &&& x.len() == 5
            &&& text_cell(x) == c
            &&& text_serial(x) == j + 1
        } by {
            assert(counts[c] <= MAX_SERIAL);
            lemma_ucid_text_decodes(c / 26, c % 26, j + 1);
            lemma_ucid_text_is_ucid(c / 26, c % 26, j + 1);
        }
        assert forall|k: int| 0 <= k < all.len() implies {
            let x = #[trigger] all[k];
            &&& is_ucid(x)
            &&& x.len() == 5
            &&& 0 <= text_cell(x) < cells
            &&& 1 <= text_serial(x) <= counts[text_cell(x)]
            &&& x == ucid_text(text_cell(x) / 26, text_cell(x) % 26, text_serial(x))
        } by {
            if k >= prev.len() {
                assert(all[k] == cur[k - prev.len()]);
            } else {
                assert(all[k] == prev[k]);
            }
        }
        assert forall|i: int, j: int|
            0 <= i < all.len() && 0 <= j < all.len() && i != j implies all[i] != all[j] by {
            if i < prev.len() && j < prev.len() {
                assert(all[i] == prev[i] && all[j] == prev[j]);
            } else if i >= prev.len() && j >= prev.len() {
                assert(all[i] == cur[i - prev.len()] && all[j] == cur[j - prev.len()]);
                assert(text_serial(all[i]) != text_serial(all[j]));
            } else if i < prev.len() {
                assert(all[i] == prev[i] && all[j] == cur[j - prev.len()]);
                assert(text_cell(all[i]) != text_cell(all[j]));
            } else {
                assert(all[j] == prev[j] && all[i] == cur[i - prev.len()]);
                assert(text_cell(all[i]) != text_cell(all[j]));
            }
        }
        assert forall|i: int, j: int|
            0 <= i < all.len() && 0 <= j < all.len() && i != j implies ucid_value(
                #[trigger] all[i],
            ) != ucid_value(#[trigger] all[j]) by {
            let (x, y) = (all[i], all[j]);
            let (cx, cy) = (text_cell(x), text_cell(y));
            let (sx, sy) = (text_serial(x), text_serial(y));
            lemma_ucid_text_is_ucid(cx / 26, cx % 26, sx);
            lemma_ucid_text_is_ucid(cy / 26, cy % 26, sy);
            assert((cx / 26) * 26 + cx % 26 == cx);
            assert((cy / 26) * 26 + cy % 26 == cy);
            if ucid_value(x) == ucid_value(y) {
                lemma_key_parts(cx, sx, cy, sy);
                assert(x == y);
            }
        }
    }
}

/// A key `cell * 26000 + serial` with a serial below 26000 gives back its cell and serial.
proof fn lemma_key_parts(c1: int, s1: int, c2: int, s2: int)
    requires
        0 <= s1 < 26000,
        0 <= s2 < 26000,
        c1 * 26000 + s1 == c2 * 26000 + s2,
    ensures
        c1 == c2,
        s1 == s2,
{
    assert(c1 == c2) by (nonlinear_arith)
        requires
            0 <= s1 < 26000,
            0 <= s2 < 26000,
            c1 * 26000 + s1 == c2 * 26000 + s2,
    ;
}

/// Appends one character (`String::push`).
#[verifier::external_body]
fn push_char(s: &mut String, c: char)
    ensures
        final(s)@ == old(s)@.push(c),
{
    s.push(c);
}

/// The ucid with initials `a` and `b` and serial `n`, zero-padded to three digits.
fn make_ucid(a: u8, b: u8, n: u32) -> (s: String)
    requires
        a < 26,
        b < 26,
        n <= MAX_SERIAL,
    ensures
        s@ == ucid_text(a as int, b as int, n as int),
{
    proof {
        lemma_digits(n as int);
    }
    let mut s = String::new();
    push_char(&mut s, (97u8 + a) as char);
    push_char(&mut s, (97u8 + b) as char);
    push_char(&mut s, (48u8 + (n / 100) as u8) as char);
    push_char(&mut s, (48u8 + ((n / 10) % 10) as u8) as char);
    push_char(&mut s, (48u8 + (n % 10) as u8) as char);
    assert(s@ =~= ucid_text(a as int, b as int, n as int));
    s
}

/// The ucids of a tally whose counts all fit in three-digit serials.
fn ucids_of_tally(counts: &Vec<u32>) -> (r: Vec<String>)
    requires
        is_tally(counts@),
    ensures
        r.deep_view() == ucid_list(counts@, CELLS as int),
{
    let mut out: Vec<String> = Vec::new();
    let mut cell: usize = 0;
    while cell < CELLS
        invariant
            is_tally(counts@),
            cell <= CELLS,
            out.deep_view() == ucid_list(counts@, cell as int),
        decreases CELLS - cell,
    {
        let count = counts[cell];
        let a = (cell / 26) as u8;
        let b = (cell % 26) as u8;
        let ghost before = out.deep_view();
        let mut n: u32 = 1;
        while n <= count
            invariant
                is_tally(counts@),
                cell < CELLS,
                count == counts@[cell as int],
                count <= MAX_SERIAL,
                a == cell / 26,
                b == cell % 26,
                1 <= n <= count + 1,
                out.deep_view() == before + cell_ucids(cell as int, (n - 1) as int),
            decreases count + 1 - n,
        {
            let x = make_ucid(a, b, n);
            let ghost prev = out.deep_view();
            out.push(x);
            assert(out.deep_view() =~= prev.push(x@));
            assert(cell_ucids(cell as int, n as int) =~= cell_ucids(cell as int, (n - 1) as int).push(
                ucid_text(a as int, b as int, n as int),
            ));
            assert(out.deep_view() =~= before + cell_ucids(cell as int, n as int));
            n = n + 1;
        }
        assert(out.deep_view() =~= ucid_list(counts@, cell + 1));
        cell = cell + 1;
    }
    out
}


/// The ucids of a tally of initials: for each cell in order (first initial, then second),
/// the ucids with its initials and the serials 1 to its count. `None` when a count
/// exceeds `MAX_SERIAL`, whose serial would not fit in three digits.
pub fn ucids_from_tally(counts: &Vec<u32>) -> (r: Option<Vec<String>>)
    requires
        counts@.len() == CELLS,
    ensures
        r is Some <==> is_tally(counts@),
        r matches Some(v) ==> v.deep_view() == ucid_list(counts@, CELLS as int),
{
    let mut c: usize = 0;
    while c < CELLS
        invariant
            counts@.len() == CELLS,
            c <= CELLS,
            forall|j: int| 0 <= j < c ==> #[trigger] counts@[j] <= MAX_SERIAL,
        decreases CELLS - c,
    {
        if counts[c] > MAX_SERIAL {
            return None;
        }
        c = c + 1;
    }
    Some(ucids_of_tally(counts))
}

/// An ASCII letter byte.
pub open spec fn initial_byte(c: u8) -> bool {
    (97 <= c && c <= 122) || (65 <= c && c <= 90)
}

/// The position in the alphabet of an ASCII letter byte, ignoring case.
pub open spec fn initial_value(c: u8) -> int {
    if 97 <= c && c <= 122 {
        c - 97
    } else {
        c - 65
    }
}

/// The position in the alphabet of an ASCII letter byte of either case, or `None` for
/// any other byte.
fn initial_index(c: u8) -> (r: Option<u32>)
    ensures
        r is Some <==> initial_byte(c),
        r matches Some(x) ==> x == initial_value(c) && x < 26,
{
    if 97 <= c && c <= 122 {
        Some((c - 97) as u32)
    } else if 65 <= c && c <= 90 {
        Some((c - 65) as u32)
    } else {
        None
    }
}

/// The letters of a string of initials as positions in the alphabet (either case);
/// `None` when some byte is not an ASCII letter.
pub fn initial_indices(initials: &[u8]) -> (r: Option<Vec<u32>>)
    ensures
        r is Some <==> forall|i: int| 0 <= i < initials@.len() ==> #[trigger] initial_byte(initials@[i]),
        r matches Some(v) ==> v@.len() == initials@.len() && letter_indices(v@) && forall|i: int|
            0 <= i < v@.len() ==> #[trigger] v@[i] == initial_value(initials@[i]),
{
    let mut out: Vec<u32> = Vec::new();
    let mut i: usize = 0;
    while i < initials.len()
        invariant
            i <= initials@.len(),
            out@.len() == i,
            forall|j: int| 0 <= j < i ==> #[trigger] initial_byte(initials@[j]),
            forall|j: int| 0 <= j < i ==> #[trigger] out@[j] == initial_value(initials@[j]),
            letter_indices(out@),
        decreases initials@.len() - i,
    {
        match initial_index(initials[i]) {
            Some(x) => out.push(x),
            None => {
                return None;
            },
        }
        i = i + 1;
    }
    Some(out)
}

/// Every letter index is below 26.
pub open spec fn letter_indices(v: Seq<u32>) -> bool {
    forall|i: int| 0 <= i < v.len() ==> #[trigger] v[i] < 26
}

/// The tally cell of draw `k`: the first-name initial drawn, times 26, plus the
/// last-name initial drawn.
pub open spec fn draw_cell(
    firstnames: Seq<u32>,
    lastnames: Seq<u32>,
    first_draws: Seq<usize>,
    last_draws: Seq<usize>,
    k: int,
) -> int {
    firstnames[first_draws[k] as int] * 26 + lastnames[last_draws[k] as int]
}

/// How many of the first `n` draws fall in tally cell `cell`.
pub open spec fn cell_count(
    firstnames: Seq<u32>,
    lastnames: Seq<u32>,
    first_draws: Seq<usize>,
    last_draws: Seq<usize>,
    n: int,
    cell: int,
) -> nat
    decreases n,
{
    if n <= 0 {
        0
    } else {
        cell_count(firstnames, lastnames, first_draws, last_draws, n - 1, cell) + if draw_cell(
            firstnames,
            lastnames,
            first_draws,
            last_draws,
            n - 1,
        ) == cell {
            1nat
        } else {
            0nat
        }
    }
}

/// Every draw indexes into its table of initials.
pub open spec fn draws_in_range(
    firstnames: Seq<u32>,
    lastnames: Seq<u32>,
    first_draws: Seq<usize>,
    last_draws: Seq<usize>,
) -> bool {
    forall|k: int|
        0 <= k < first_draws.len() ==> #[trigger] first_draws[k] < firstnames.len()
            && last_draws[k] < lastnames.len()
}

/// Adding one to a cell of the tally adds one to its sum.
proof fn lemma_count_sum_bump(counts: Seq<u32>, c: int, cells: int)
    requires
        0 <= c < counts.len(),
        0 <= cells <= counts.len(),
        counts[c] < u32::MAX,
    ensures
        count_sum(counts.update(c, (counts[c] + 1) as u32), cells) == count_sum(counts, cells) + (
        if c < cells {
            1int
        } else {
            0int
        }),
    decreases cells,
{
    if cells > 0 {
        lemma_count_sum_bump(counts, c, cells - 1);
    }
}

proof fn lemma_count_sum_nonneg(counts: Seq<u32>, cells: int)
    requires
        cells <= counts.len(),
    ensures
        count_sum(counts, cells) >= 0,
    decreases cells,
{
    if cells > 0 {
        lemma_count_sum_nonneg(counts, cells - 1);
    }
}

/// A cell of the tally counts at most the sum of the tally.
proof fn lemma_count_le_sum(counts: Seq<u32>, c: int, cells: int)
    requires
        0 <= c < cells <= counts.len(),
    ensures
        counts[c] <= count_sum(counts, cells),
    decreases cells,
{
    lemma_count_sum_nonneg(counts, cells - 1);
    if c < cells - 1 {
        lemma_count_le_sum(counts, c, cells - 1);
    }
}

proof fn lemma_count_sum_zero(counts: Seq<u32>, cells: int)
    requires
        0 <= cells <= counts.len(),
        forall|c: int| 0 <= c < counts.len() ==> #[trigger] counts[c] == 0,
    ensures
        count_sum(counts, cells) == 0,
    decreases cells,
{
    if cells > 0 {
        lemma_count_sum_zero(counts, cells - 1);
    }
}

/// Tallies pairs of drawn initials: draw `k` picks the first-name initial at
/// `first_draws[k]` and the last-name initial at `last_draws[k]`, and counts one for
/// their pair. `None` when a draw indexes past its table.
pub fn tally_draws(
    firstnames: &Vec<u32>,
    lastnames: &Vec<u32>,
    first_draws: &Vec<usize>,
    last_draws: &Vec<usize>,
) -> (r: Option<Vec<u32>>)
    requires
        letter_indices(firstnames@),
        letter_indices(lastnames@),
        first_draws@.len() == last_draws@.len(),
        first_draws@.len() <= u32::MAX,
    ensures
        r is Some <==> draws_in_range(firstnames@, lastnames@, first_draws@, last_draws@),
        r matches Some(counts) ==> {
            &&& counts@.len() == CELLS
            &&& count_sum(counts@, CELLS as int) == first_draws@.len()
            &&& forall|c: int|
                0 <= c < CELLS ==> #[trigger] counts@[c] == cell_count(
                    firstnames@,
                    lastnames@,
                    first_draws@,
                    last_draws@,
                    first_draws@.len() as int,
                    c,
                )
        },
{
    let mut counts: Vec<u32> = Vec::new();
    while counts.len() < CELLS
        invariant
            counts@.len() <= CELLS,
            forall|c: int| 0 <= c < counts@.len() ==> #[trigger] counts@[c] == 0,
        decreases CELLS - counts.len(),
    {
        counts.push(0);
    }
    proof {
        lemma_count_sum_zero(counts@, CELLS as int);
    }
    let mut k: usize = 0;
    while k < first_draws.len()
        invariant
            letter_indices(firstnames@),
            letter_indices(lastnames@),
            first_draws@.len() == last_draws@.len(),
            first_draws@.len() <= u32::MAX,
            k <= first_draws@.len(),
            counts@.len() == CELLS,
            count_sum(counts@, CELLS as int) == k,
            forall|j: int|
                0 <= j < k ==> #[trigger] first_draws@[j] < firstnames@.len() && last_draws@[j]
                    < lastnames@.len(),
            forall|c: int|
                0 <= c < CELLS ==> #[trigger] counts@[c] == cell_count(
                    firstnames@,
                    lastnames@,
                    first_draws@,
                    last_draws@,
                    k as int,
                    c,
                ),
        decreases first_draws@.len() - k,
    {
        let f = first_draws[k];
        let l = last_draws[k];
        if f >= firstnames.len() || l >= lastnames.len() {
            return None;
        }
        assert(first_draws@[k as int] < firstnames@.len() && last_draws@[k as int]
            < lastnames@.len());
        let cell = (firstnames[f] * 26 + lastnames[l]) as usize;
        assert(firstnames@[f as int] < 26 && lastnames@[l as int] < 26);
        proof {
            lemma_count_le_sum(counts@, cell as int, CELLS as int);
            lemma_count_sum_bump(counts@, cell as int, CELLS as int);
        }
        let ghost before = counts@;
        let bumped = counts[cell] + 1;
        counts[cell] = bumped;
        assert forall|c: int| 0 <= c < CELLS implies #[trigger] counts@[c] == cell_count(
            firstnames@,
            lastnames@,
            first_draws@,
            last_draws@,
            k + 1,
            c,
        ) by {
            assert(draw_cell(firstnames@, lastnames@, first_draws@, last_draws@, k as int)
                == cell);
            assert(before[c] == cell_count(
                firstnames@,
                lastnames@,
                first_draws@,
                last_draws@,
                k as int,
                c,
            ));
        }
        k = k + 1;
    }
    Some(counts)
}

} // verus!
