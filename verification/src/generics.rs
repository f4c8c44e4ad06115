//! Small helpers over plain values: score statistics and text.
use crate::text::{
    blanks_of, chars_of, decimal, digits_of, push_blanks, push_chars, push_decimal, text_of,
};
use vstd::prelude::*;

verus! {

/// Sum of the first `n` entries of `arr`.
pub open spec fn sum_to(arr: Seq<u64>, n: int) -> int
    decreases n,
{
    if n <= 0 {
        0
    } else {
        sum_to(arr, n - 1) + arr[n - 1]
    }
}

/// The least entry of `arr`.
pub fn min(arr: &[u64]) -> (least: u64)
    requires
        arr@.len() > 0,
    ensures
        forall|i: int| 0 <= i < arr@.len() ==> least <= #[trigger] arr@[i],
        exists|i: int| 0 <= i < arr@.len() && #[trigger] arr@[i] == least,
{
    let mut least: u64 = arr[0];
    let mut k: usize = 1;
    while k < arr.len()
        invariant
            1 <= k <= arr@.len(),
            forall|i: int| 0 <= i < k ==> least <= #[trigger] arr@[i],
            exists|i: int| 0 <= i < k && #[trigger] arr@[i] == least,
        decreases arr.len() - k,
    {
        if arr[k] < least {
            least = arr[k];
        }
        k = k + 1;
    }
    least
}

/// The greatest entry of `arr`.
pub fn max(arr: &[u64]) -> (greatest: u64)
    requires
        arr@.len() > 0,
    ensures
        forall|i: int| 0 <= i < arr@.len() ==> greatest >= #[trigger] arr@[i],
        exists|i: int| 0 <= i < arr@.len() && #[trigger] arr@[i] == greatest,
{
    let mut greatest: u64 = arr[0];
    let mut k: usize = 1;
    while k < arr.len()
        invariant
            1 <= k <= arr@.len(),
            forall|i: int| 0 <= i < k ==> greatest >= #[trigger] arr@[i],
            exists|i: int| 0 <= i < k && #[trigger] arr@[i] == greatest,
        decreases arr.len() - k,
    {
        if arr[k] > greatest {
            greatest = arr[k];
        }
        k = k + 1;
    }
    greatest
}

/// The arithmetic mean of `arr`, rounded down.
pub fn avg(arr: &[u64]) -> (mean: u64)
    requires
        arr@.len() > 0,
    ensures
        mean == sum_to(arr@, arr@.len() as int) / (arr@.len() as int),
{
    let mut total: u128 = 0;
    let mut k: usize = 0;
    while k < arr.len()
        invariant
            k <= arr@.len(),
            total == sum_to(arr@, k as int),
            total <= k * 0xffff_ffff_ffff_ffff,
        decreases arr.len() - k,
    {
        total = total + arr[k] as u128;
        k = k + 1;
    }
    let n: u128 = arr.len() as u128;
    assert(total / n <= 0xffff_ffff_ffff_ffff) by (nonlinear_arith)
        requires
            total <= n * 0xffff_ffff_ffff_ffff,
            n > 0,
    ;
    (total / n) as u64
}

/// Inverts a string.
pub fn invert(s: String) -> (inverted: String)
    ensures
        inverted@ == s@.reverse(),
{
    let chars = chars_of(s.as_str());
    let turned = reversed(&chars);
    text_of(&turned)
}

/// Whether the answer `num` to a prompt lies in `range`, both ends
/// included. The answer is taken by its lowest eight bits.
pub fn in_range(num: usize, range: (u8, u8)) -> (ok: bool)
    ensures
        ok == (range.0 <= num % 256 <= range.1),
{
    let low: u8 = (num % 256) as u8;
    low >= range.0 && low <= range.1
}

/// The greatest of the first `n` entries of `l`, or 0 where there is none.
pub open spec fn tallest(l: Seq<usize>, n: int) -> int
    decreases n,
{
    if n <= 0 {
        0
    } else if l[n - 1] > tallest(l, n - 1) {
        l[n - 1] as int
    } else {
        tallest(l, n - 1)
    }
}

/// The decimal digits of `n`, with a blank before a single digit.
pub open spec fn two_wide(n: int) -> Seq<char> {
    if digits_of(n).len() < 2 {
        seq![' '] + digits_of(n)
    } else {
        digits_of(n)
    }
}

/// One cell of a histogram row: the gap, then the symbol, turned round,
/// where the column reaches above `height`, and blanks where it does not.
pub open spec fn hist_cell(value: int, height: int, symbol: Seq<char>, width: int, gap: int) -> Seq<
    char,
> {
    blanks_of(gap) + if value > height {
        symbol.reverse()
    } else {
        blanks_of(width)
    }
}

/// The cells of the first `n` columns of a histogram row.
pub open spec fn hist_cells(
    l: Seq<usize>,
    n: int,
    height: int,
    symbol: Seq<char>,
    width: int,
    gap: int,
) -> Seq<char>
    decreases n,
{
    if n <= 0 {
        Seq::empty()
    } else {
        hist_cells(l, n - 1, height, symbol, width, gap) + hist_cell(
            l[n - 1] as int,
            height,
            symbol,
            width,
            gap,
        )
    }
}

/// The rows of a histogram from height `top` down to 1, each after a line
/// break and its height.
pub open spec fn hist_rows(l: Seq<usize>, top: int, symbol: Seq<char>, width: int, gap: int) -> Seq<
    char,
>
    decreases top,
{
    if top <= 0 {
        Seq::empty()
    } else {
        seq!['\n'] + two_wide(top) + seq![' '] + hist_cells(
            l,
            l.len() as int,
            top - 1,
            symbol,
            width,
            gap,
        ) + hist_rows(l, top - 1, symbol, width, gap)
    }
}

/// The labels of the columns 2 to `n` of a histogram.
pub open spec fn hist_labels(n: int, width: int, gap: int) -> Seq<char>
    decreases n,
{
    if n < 2 {
        Seq::empty()
    } else {
        hist_labels(n - 1, width, gap) + blanks_of(gap) + blanks_of(width - 1) + digits_of(n)
    }
}

/// The histogram of `l`: its rows from the tallest column's height down,
/// then the line of column labels. `width` is the symbol's length in bytes.
pub open spec fn hist_of(l: Seq<usize>, symbol: Seq<char>, width: int, gap: int) -> Seq<char> {
    hist_rows(l, tallest(l, l.len() as int), symbol, width, gap) + seq!['\n'] + blanks_of(width)
        + blanks_of(gap) + seq!['0', '/', '1'] + hist_labels(l.len() as int, width, gap) + seq![
        '+',
        '\n',
    ]
}

/// Plots an array of integers to a histogram: one column for each entry,
/// drawn with `symbol`, the columns `gap` apart.
pub fn hist(l: &[usize], symbol: &str, gap: usize) -> (plot: String)
    requires
        l@.len() >= 1,
        l@.len() >= 2 ==> symbol.len() >= 1,
    ensures
        plot@ == hist_of(l@, symbol@, symbol.len() as int, gap as int),
{
    let width = symbol.len();
    let mut top: usize = 0;
    let mut k: usize = 0;
    while k < l.len()
        invariant
            k <= l@.len(),
            top == tallest(l@, k as int),
        decreases l.len() - k,
    {
        if l[k] > top {
            top = l[k];
        }
        k = k + 1;
    }
    let turned: Vec<char> = chars_of(symbol);
    let shown = reversed(&turned);
    let mut out: Vec<char> = Vec::new();
    let mut height: usize = top;
    while height > 0
        invariant
            height <= top == tallest(l@, l@.len() as int),
            shown@ == symbol@.reverse(),
            width == symbol.len(),
            out@ + hist_rows(l@, height as int, symbol@, width as int, gap as int) == hist_rows(
                l@,
                top as int,
                symbol@,
                width as int,
                gap as int,
            ),
        decreases height,
    {
        let ghost start = out@;
        out.push('\n');
        let digits = decimal(height);
        if digits.len() < 2 {
            out.push(' ');
        }
        push_chars(&mut out, &digits);
        out.push(' ');
        let ghost head = out@;
        assert(head =~= start + seq!['\n'] + two_wide(height as int) + seq![' ']);
        let mut i: usize = 0;
        while i < l.len()
            invariant
                i <= l@.len(),
                height >= 1,
                shown@ == symbol@.reverse(),
                out@ == head + hist_cells(
                    l@,
                    i as int,
                    height - 1,
                    symbol@,
                    width as int,
                    gap as int,
                ),
            decreases l.len() - i,
        {
            let ghost row = out@;
            push_blanks(&mut out, gap);
            if l[i] > height - 1 {
                push_chars(&mut out, &shown);
            } else {
                push_blanks(&mut out, width);
            }
            assert(out@ =~= row + hist_cell(
                l@[i as int] as int,
                height - 1,
                symbol@,
                width as int,
                gap as int,
            ));
            assert(out@ =~= head + hist_cells(
                l@,
                i as int + 1,
                height - 1,
                symbol@,
                width as int,
                gap as int,
            ));
            i = i + 1;
        }
        assert(out@ + hist_rows(l@, height - 1, symbol@, width as int, gap as int) =~= start
            + hist_rows(l@, height as int, symbol@, width as int, gap as int));
        height = height - 1;
    }
    assert(out@ =~= hist_rows(l@, top as int, symbol@, width as int, gap as int));
    let ghost rows = out@;
    out.push('\n');
    push_blanks(&mut out, width);
    push_blanks(&mut out, gap);
    out.push('0');
    out.push('/');
    out.push('1');
    let ghost base = out@;
    assert(base =~= rows + seq!['\n'] + blanks_of(width as int) + blanks_of(gap as int) + seq![
        '0',
        '/',
        '1',
    ]);
    let mut i: usize = 1;
    while i < l.len()
        invariant
            1 <= i <= l@.len(),
            l@.len() >= 2 ==> width >= 1,
            out@ == base + hist_labels(i as int, width as int, gap as int),
        decreases l.len() - i,
    {
        push_blanks(&mut out, gap);
        push_blanks(&mut out, width - 1);
        push_decimal(&mut out, i + 1);
        assert(out@ =~= base + hist_labels(i as int + 1, width as int, gap as int));
        i = i + 1;
    }
    out.push('+');
    out.push('\n');
    assert(out@ =~= hist_of(l@, symbol@, width as int, gap as int));
    text_of(&out)
}

/// The characters of `chars` in the opposite order.
pub fn reversed(chars: &Vec<char>) -> (turned: Vec<char>)
    ensures
        turned@ == chars@.reverse(),
{
    let mut turned: Vec<char> = Vec::new();
    let mut i: usize = chars.len();
    while i > 0
        invariant
            i <= chars@.len(),
            turned@.len() == chars@.len() - i,
            forall|k: int| 0 <= k < turned@.len() ==> #[trigger] turned@[k] == chars@[chars@.len() - 1 - k],
        decreases i,
    {
        i = i - 1;
        turned.push(chars[i]);
    }
    assert(turned@ =~= chars@.reverse());
    turned
}

} // verus!
