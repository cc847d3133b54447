//! Names of cells: letters for the column (`A` is the first, `Z` the 26th,
//! `AA` the 27th), then the row number counted from 1.
use vstd::prelude::*;

use crate::common_types::Index;
use crate::text::{digits_end, is_digit, lemma_run_end, lemma_run_end_at, push_char, run_end};

verus! {

/// Where the column letters of `s` end: at its first digit.
pub open spec fn letters_end(s: Seq<char>) -> int {
    run_end(s, 0, |c: char| !is_digit(c))
}

/// The column number the letters `s` spell (`A` is 1, `Z` 26, `AA` 27).
pub open spec fn column_value(s: Seq<char>) -> int
    decreases s.len(),
{
    if s.len() == 0 {
        0
    } else {
        column_value(s.drop_last()) * 26 + (s.last() as int - 'A' as int + 1)
    }
}

/// The number the decimal digits `s` spell.
pub open spec fn row_value(s: Seq<char>) -> int
    decreases s.len(),
{
    if s.len() == 0 {
        0
    } else {
        row_value(s.drop_last()) * 10 + (s.last() as int - '0' as int)
    }
}

/// `s` names a cell that `get_cell_idx` reads without failing: characters
/// from `A` on, then digits, a column and a row from 1
/// that fit a `usize`.
pub open spec fn is_cell_ref(s: Seq<char>) -> bool {
    let k = letters_end(s);
    &&& 0 < k < s.len()
    &&& forall|i: int| 0 <= i < k ==> 'A' <= #[trigger] s[i]
    &&& digits_end(s, k) == s.len()
    &&& column_value(s.take(k)) <= usize::MAX
    &&& 1 <= row_value(s.skip(k)) <= usize::MAX
}

/// The zero-based position the name `s` stands for.
pub open spec fn cell_index(s: Seq<char>) -> Index {
    let k = letters_end(s);
    Index {
        x: (column_value(s.take(k)) - 1) as usize,
        y: (row_value(s.skip(k)) - 1) as usize,
    }
}

/// Each letter adds at least one to the column, so prefixes never count more.
pub proof fn lemma_column_value_grows(s: Seq<char>, i: int, j: int)
    requires
        0 <= i <= j <= s.len(),
        forall|k: int| 0 <= k < s.len() ==> 'A' <= #[trigger] s[k],
    ensures
        column_value(s.take(i)) <= column_value(s.take(j)),
        i < j ==> column_value(s.take(j)) >= 1,
    decreases j - i,
{
    if i < j {
        lemma_column_value_grows(s, i, j - 1);
        assert(s.take(j).drop_last() =~= s.take(j - 1));
        lemma_column_value_nonneg(s.take(j - 1));
    }
}

pub proof fn lemma_column_value_nonneg(s: Seq<char>)
    requires
        forall|k: int| 0 <= k < s.len() ==> 'A' <= #[trigger] s[k],
    ensures
        column_value(s) >= 0,
    decreases s.len(),
{
    if s.len() > 0 {
        lemma_column_value_nonneg(s.drop_last());
    }
}

/// Digits never make a prefix count more than the whole.
pub proof fn lemma_row_value_grows(s: Seq<char>, i: int, j: int)
    requires
        0 <= i <= j <= s.len(),
        forall|k: int| 0 <= k < s.len() ==> is_digit(#[trigger] s[k]),
    ensures
        0 <= row_value(s.take(i)) <= row_value(s.take(j)),
    decreases j - i,
{
    if i < j {
        lemma_row_value_grows(s, i, j - 1);
        assert(s.take(j).drop_last() =~= s.take(j - 1));
    } else {
        lemma_row_value_nonneg(s.take(i));
    }
}

pub proof fn lemma_row_value_nonneg(s: Seq<char>)
    requires
        forall|k: int| 0 <= k < s.len() ==> is_digit(#[trigger] s[k]),
    ensures
        row_value(s) >= 0,
    decreases s.len(),
{
    if s.len() > 0 {
        lemma_row_value_nonneg(s.drop_last());
    }
}

/// A position read from a name is below the largest `usize` in each
/// direction.
pub proof fn lemma_cell_index_bounds(s: Seq<char>)
    requires
        is_cell_ref(s),
    ensures
        cell_index(s).x < usize::MAX,
        cell_index(s).y < usize::MAX,
        cell_index(s).x as int == column_value(s.take(letters_end(s))) - 1,
        cell_index(s).y as int == row_value(s.skip(letters_end(s))) - 1,
{
    let k = letters_end(s);
    assert forall|j: int| 0 <= j < k implies 'A' <= #[trigger] s.take(k)[j] by {
        assert(s.take(k)[j] == s[j]);
    }
    lemma_column_value_grows(s.take(k), 0, k);
    assert(s.take(k).take(k) =~= s.take(k));
}

/// The zero-based position that the cell name `cell_name` stands for.
pub fn cell_idx(cell_name: &str) -> (r: Index)
    requires
        is_cell_ref(cell_name@),
    ensures
        r == cell_index(cell_name@),
{
    let ghost s = cell_name@;
    let ghost k = letters_end(s);
    proof {
        lemma_run_end(s, 0, |c: char| !is_digit(c));
        lemma_run_end(s, k, |c: char| is_digit(c));
        assert forall|j: int| 0 <= j < k implies 'A' <= #[trigger] s.take(k)[j] by {
            assert(s.take(k)[j] == s[j]);
        }
    }
    let n = cell_name.unicode_len();
    let mut x: usize = 0;
    let mut i: usize = 0;
    while i < n && !crate::text::digit(cell_name.get_char(i))
        invariant
            n == s.len(),
            s == cell_name@,
            k == letters_end(s),
            0 < k < s.len(),
            i <= k,
            forall|j: int| 0 <= j < k ==> 'A' <= #[trigger] s[j],
            forall|j: int| 0 <= j < k ==> !is_digit(#[trigger] s[j]),
            k == s.len() || is_digit(s[k]),
            column_value(s.take(k)) <= usize::MAX,
            x == column_value(s.take(i as int)),
        decreases k - i,
    {
        let c = cell_name.get_char(i);
        proof {
            assert(i < k) by {
                if i == k {
                    assert(is_digit(s[k]));
                }
            }
            lemma_column_value_grows(s.take(k), i + 1, k);
            assert(s.take(k).take(i + 1) =~= s.take(i + 1));
            assert(s.take(k).take(k) =~= s.take(k));
            assert(s.take(i + 1).drop_last() =~= s.take(i as int));
            assert(s.take(i + 1).last() == c);
            assert(column_value(s.take(i + 1)) == x * 26 + (c as int - 'A' as int + 1));
        }
        x = x * 26 + ((c as u32 - 'A' as u32 + 1) as usize);
        i = i + 1;
    }
    proof {
        if i < k {
            assert(is_digit(s[i as int]));
        }
        lemma_column_value_grows(s.take(k), 0, k);
        assert(s.take(k).take(k) =~= s.take(k));
    }
    let ghost digits = s.skip(k);
    proof {
        assert forall|j: int| 0 <= j < digits.len() implies is_digit(#[trigger] digits[j]) by {
            assert(digits[j] == s[k + j]);
            assert((|c: char| is_digit(c))(s[k + j]));
        }
    }
    let mut y: usize = 0;
    while i < n
        invariant
            n == s.len(),
            s == cell_name@,
            0 < k <= i <= n,
            digits == s.skip(k),
            digits.len() == n - k,
            forall|j: int| 0 <= j < digits.len() ==> is_digit(#[trigger] digits[j]),
            row_value(digits) <= usize::MAX,
            y == row_value(digits.take(i - k)),
        decreases n - i,
    {
        let c = cell_name.get_char(i);
        proof {
            lemma_row_value_grows(digits, i - k + 1, digits.len() as int);
            assert(digits.take(digits.len() as int) =~= digits);
            assert(digits.take(i - k + 1).drop_last() =~= digits.take(i - k));
            assert(digits[i - k] == c);
            lemma_row_value_grows(digits, i - k, i - k);
            assert(digits.take(i - k + 1).last() == c);
            assert(row_value(digits.take(i - k + 1)) == y * 10 + (c as int - '0' as int));
        }
        y = y * 10 + ((c as u32 - '0' as u32) as usize);
        i = i + 1;
    }
    proof {
        assert(digits.take(i - k) =~= digits);
    }
    Index { x: x - 1, y: y - 1 }
}

/// The letters of the column at zero-based position `x`: `A` for 0, `Z`
/// for 25, `AA` for 26.
pub open spec fn column_name(x: nat) -> Seq<char>
    decreases x,
{
    if x < 26 {
        seq![(65 + x) as char]
    } else {
        column_name((x / 26 - 1) as nat).push((65 + x % 26) as char)
    }
}

/// The letters of the column at zero-based position `idx`.
pub fn column_idx_to_string(idx: usize) -> (r: String)
    ensures
        r@ == column_name(idx as nat),
    decreases idx,
{
    let rem = (idx % 26) as u8;
    let c = (65u8 + rem) as char;
    if idx < 26 {
        let mut s = String::new();
        push_char(&mut s, c);
        assert(s@ =~= column_name(idx as nat));
        s
    } else {
        let mut s = column_idx_to_string(idx / 26 - 1);
        push_char(&mut s, c);
        s
    }
}

/// The letters of a column read back as its position: the column of
/// `column_name(x)` is `x + 1` counted from one, and every letter is one of
/// `A`..`Z`.
pub proof fn law_column_name_round_trip(x: nat)
    ensures
        column_value(column_name(x)) == x + 1,
        column_name(x).len() > 0,
        forall|i: int| 0 <= i < column_name(x).len() ==> 'A' <= #[trigger] column_name(x)[i] <= 'Z',
    decreases x,
{
    let name = column_name(x);
    let c = (65 + x % 26) as char;
    assert(c as int == 65 + x % 26);
    if x < 26 {
        assert(name.drop_last() =~= Seq::<char>::empty());
        assert(column_value(name.drop_last()) == 0);
    } else {
        let p = (x / 26 - 1) as nat;
        law_column_name_round_trip(p);
        assert(name.drop_last() =~= column_name(p));
        assert(name.last() == c);
        assert(x == (x / 26) * 26 + x % 26) by (nonlinear_arith);
        assert(column_value(name) == column_value(column_name(p)) * 26 + (c as int - 'A' as int + 1));
        assert forall|i: int| 0 <= i < name.len() implies 'A' <= #[trigger] name[i] <= 'Z' by {
            if i < name.len() - 1 {
                assert(name[i] == column_name(p)[i]);
            }
        }
    }
}

/// Whether `name` names a cell that `cell_idx` reads without failing.
pub fn cell_ref(name: &str) -> (r: bool)
    ensures
        r == is_cell_ref(name@),
{
    let ghost s = name@;
    let n = name.unicode_len();
    let mut k: usize = 0;
    while k < n && !crate::text::digit(name.get_char(k))
        invariant
            n == s.len(),
            s == name@,
            k <= n,
            letters_end(s) == run_end(s, k as int, |c: char| !is_digit(c)),
            forall|j: int| 0 <= j < k ==> 'A' <= #[trigger] s[j],
        decreases n - k,
    {
        let c = name.get_char(k);
        if 'A' > c {
            proof {
                lemma_run_end(s, k as int, |c: char| !is_digit(c));
                assert((|c: char| !is_digit(c))(s[k as int]));
            }
            return false;
        }
        k = k + 1;
    }
    proof {
        lemma_run_end(s, k as int, |c: char| !is_digit(c));
    }
    if k == 0 || k == n {
        return false;
    }
    // The column, which must fit.
    let mut x: usize = 0;
    let mut i: usize = 0;
    proof {
        assert forall|j: int| 0 <= j < k implies 'A' <= #[trigger] s.take(k as int)[j] by {
            assert(s.take(k as int)[j] == s[j]);
        }
        assert(s.take(k as int).take(k as int) =~= s.take(k as int));
    }
    while i < k
        invariant
            n == s.len(),
            s == name@,
            0 < k < n,
            k == letters_end(s),
            i <= k,
            forall|j: int| 0 <= j < k ==> 'A' <= #[trigger] s[j],
            forall|j: int| 0 <= j < k ==> 'A' <= #[trigger] s.take(k as int)[j],
            s.take(k as int).take(k as int) == s.take(k as int),
            x == column_value(s.take(i as int)),
        decreases k - i,
    {
        let c = name.get_char(i);
        proof {
            assert(s.take(i + 1).drop_last() =~= s.take(i as int));
            assert(s.take(i + 1).last() == c);
            assert(s.take(k as int).take(i + 1) =~= s.take(i + 1));
        }
        let d = (c as u32 - 'A' as u32 + 1) as usize;
        match x.checked_mul(26) {
            Some(x26) => match x26.checked_add(d) {
                Some(nx) => {
                    x = nx;
                },
                None => {
                    proof {
                        lemma_column_value_grows(s.take(k as int), i + 1, k as int);
                    }
                    return false;
                },
            },
            None => {
                proof {
                    lemma_column_value_nonneg(s.take(i as int));
                    lemma_column_value_grows(s.take(k as int), i + 1, k as int);
                    assert(x * 26 + d >= x * 26);
                }
                return false;
            },
        }
        i = i + 1;
    }
    // The row: digits to the end, from 1, fitting.
    let ghost digits = s.skip(k as int);
    let mut e: usize = k;
    while e < n
        invariant
            n == s.len(),
            s == name@,
            k <= e <= n,
            k == letters_end(s),
            digits_end(s, k as int) == digits_end(s, e as int),
        decreases n - e,
    {
        if !crate::text::digit(name.get_char(e)) {
            proof {
                assert(!is_digit(s[e as int]));
                assert(digits_end(s, e as int) == e as int);
            }
            return false;
        }
        e = e + 1;
    }
    proof {
        lemma_run_end(s, k as int, |c: char| is_digit(c));
        assert forall|j: int| 0 <= j < digits.len() implies is_digit(#[trigger] digits[j]) by {
            assert(digits[j] == s[k + j]);
            assert((|c: char| is_digit(c))(s[k + j]));
        }
        assert(digits.take(digits.len() as int) =~= digits);
    }
    let mut y: usize = 0;
    let mut j: usize = k;
    while j < n
        invariant
            n == s.len(),
            s == name@,
            0 < k < n,
            k <= j <= n,
            k == letters_end(s),
            digits == s.skip(k as int),
            digits.len() == n - k,
            forall|q: int| 0 <= q < digits.len() ==> is_digit(#[trigger] digits[q]),
            digits.take(digits.len() as int) == digits,
            y == row_value(digits.take(j - k)),
        decreases n - j,
    {
        let c = name.get_char(j);
        proof {
            assert(digits.take(j - k + 1).drop_last() =~= digits.take(j - k));
            assert(digits[j - k] == c);
            assert(digits.take(j - k + 1).last() == c);
            assert(row_value(digits.take(j - k + 1)) == y * 10 + (c as int - '0' as int));
            assert(is_digit(digits[j - k]));
        }
        let d = (c as u32 - '0' as u32) as usize;
        match y.checked_mul(10) {
            Some(y10) => match y10.checked_add(d) {
                Some(ny) => {
                    y = ny;
                },
                None => {
                    proof {
                        lemma_row_value_grows(digits, j - k + 1, digits.len() as int);
                    }
                    return false;
                },
            },
            None => {
                proof {
                    lemma_row_value_grows(digits, j - k, j - k);
                    lemma_row_value_grows(digits, j - k + 1, digits.len() as int);
                }
                return false;
            },
        }
        j = j + 1;
    }
    proof {
        assert(digits.take(n - k) =~= digits);
    }
    y >= 1
}

/// The decimal digits of `n`, most significant first.
pub open spec fn decimal(n: nat) -> Seq<char>
    decreases n,
{
    if n < 10 {
        seq![(48 + n) as char]
    } else {
        decimal(n / 10).push((48 + n % 10) as char)
    }
}

/// The name of the cell at column `x` and row `y` (both from zero): its
/// column letters, then its row counted from one.
pub open spec fn cell_name(x: nat, y: nat) -> Seq<char> {
    column_name(x) + decimal(y + 1)
}

/// The decimal digits of `n`.
pub fn decimal_string(n: usize) -> (r: String)
    ensures
        r@ == decimal(n as nat),
    decreases n,
{
    let c = (48u8 + (n % 10) as u8) as char;
    if n < 10 {
        let mut s = String::new();
        push_char(&mut s, c);
        assert(s@ =~= decimal(n as nat));
        s
    } else {
        let mut s = decimal_string(n / 10);
        push_char(&mut s, c);
        s
    }
}

/// The name of the cell at column `x` and row `y`, as a reference to it
/// is written in an expression.
pub fn cell_name_of(x: usize, y: usize) -> (r: String)
    requires
        y < usize::MAX,
    ensures
        r@ == cell_name(x as nat, y as nat),
{
    let mut s = column_idx_to_string(x);
    let digits = decimal_string(y + 1);
    s.append(digits.as_str());
    s
}

/// The digits of `n` are digits and read back as `n`.
pub proof fn lemma_decimal(n: nat)
    ensures
        decimal(n).len() > 0,
        forall|i: int| 0 <= i < decimal(n).len() ==> is_digit(#[trigger] decimal(n)[i]),
        row_value(decimal(n)) == n,
    decreases n,
{
    let d = decimal(n);
    let c = (48 + n % 10) as char;
    assert(c as int == 48 + n % 10);
    if n < 10 {
        assert(d.drop_last() =~= Seq::<char>::empty());
        assert(d.last() == c);
        assert(row_value(d.drop_last()) == 0);
        assert(row_value(d) == row_value(d.drop_last()) * 10 + (c as int - '0' as int));
    } else {
        lemma_decimal(n / 10);
        assert(row_value(d) == row_value(d.drop_last()) * 10 + (d.last() as int - '0' as int));
        assert(d.drop_last() =~= decimal(n / 10));
        assert(d.last() == c);
        assert(n == (n / 10) * 10 + n % 10) by (nonlinear_arith);
        assert forall|i: int| 0 <= i < d.len() implies is_digit(#[trigger] d[i]) by {
            if i < d.len() - 1 {
                assert(d[i] == decimal(n / 10)[i]);
            }
        }
    }
}

/// A cell's name reads back as its position: `get_cell_idx` inverts the
/// naming of cells by column letters and row number.
pub proof fn law_cell_name_round_trip(x: nat, y: nat)
    requires
        x < usize::MAX,
        y < usize::MAX,
    ensures
        is_cell_ref(cell_name(x, y)),
        cell_index(cell_name(x, y)) == (Index { x: x as usize, y: y as usize }),
{
    let col = column_name(x);
    let dec = decimal(y + 1);
    let s = cell_name(x, y);
    law_column_name_round_trip(x);
    lemma_decimal((y + 1) as nat);
    let k = col.len() as int;
    let not_digit = |c: char| !is_digit(c);
    let is_dig = |c: char| is_digit(c);
    assert forall|j: int| 0 <= j < k implies not_digit(#[trigger] s[j]) by {
        assert(s[j] == col[j]);
    }
    assert(s[k] == dec[0]);
    lemma_run_end_at(s, 0, k, not_digit);
    assert forall|j: int| k <= j < s.len() implies is_dig(#[trigger] s[j]) by {
        assert(s[j] == dec[j - k]);
    }
    lemma_run_end_at(s, k, s.len() as int, is_dig);
    assert(s.take(k) =~= col);
    assert(s.skip(k) =~= dec);
    assert forall|i: int| 0 <= i < k implies 'A' <= #[trigger] s[i] by {
        assert(s[i] == col[i]);
    }
}

} // verus!
