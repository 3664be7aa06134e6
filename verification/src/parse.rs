//! Pattern-file parsers: plaintext, Life 1.05 and run-length-encoded
//! pattern text is turned into an initial cell matrix with its
//! dimensions.

use vstd::prelude::*;
use crate::board::Cell;

verus! {

/// Why pattern text was rejected.
#[derive(Clone, Copy, Debug, PartialEq, Eq, Structural)]
pub enum FormatError {
    /// A character outside the format's alphabet.
    BadCharacter,
    /// A size-header entry that does not read as `x = <n>` or
    /// `y = <n>` with a decimal value the machine can hold.
    BadHeader,
    /// A run count too large for the machine.
    BadCount,
    /// A cell run or row end before the size header gave both
    /// dimensions.
    SizeUnknown,
    /// A row already longer than the declared width at its row end.
    RowTooLong,
}

/// ASCII whitespace, as trimmed from the ends of a line.
pub open spec fn is_ws(b: u8) -> bool {
    b == 32 || b == 9 || b == 13 || b == 11 || b == 12
}

/// The lines of `s` split at line feeds, `cur` being the bytes of the
/// current line read so far: the final line needs no terminator, and
/// a trailing terminator adds no empty line.
pub open spec fn split_lines_from(s: Seq<u8>, cur: Seq<u8>) -> Seq<Seq<u8>>
    decreases s.len(),
{
    if s.len() == 0 {
        if cur.len() == 0 {
            Seq::empty()
        } else {
            seq![cur]
        }
    } else if s[0] == 10 {
        seq![cur] + split_lines_from(s.drop_first(), Seq::empty())
    } else {
        split_lines_from(s.drop_first(), cur.push(s[0]))
    }
}

/// The lines of `s`, split at line feeds.
pub open spec fn split_lines(s: Seq<u8>) -> Seq<Seq<u8>> {
    split_lines_from(s, Seq::empty())
}

/// `s` without leading and trailing ASCII whitespace.
pub open spec fn trim_bytes(s: Seq<u8>) -> Seq<u8>
    decreases s.len(),
{
    if s.len() == 0 {
        s
    } else if is_ws(s[0]) {
        trim_bytes(s.drop_first())
    } else if is_ws(s.last()) {
        trim_bytes(s.drop_last())
    } else {
        s
    }
}

proof fn lemma_trim_subrange(s: Seq<u8>, a: int, b: int)
    requires
        0 <= a <= b <= s.len(),
        forall|k: int| 0 <= k < a ==> is_ws(#[trigger] s[k]),
        forall|k: int| b <= k < s.len() ==> is_ws(#[trigger] s[k]),
        a < b ==> !is_ws(s[a]) && !is_ws(s[b - 1]),
    ensures
        trim_bytes(s) == s.subrange(a, b),
    decreases s.len(),
{
    if s.len() == 0 {
        assert(s.subrange(0, 0) =~= s);
    } else if is_ws(s[0]) {
        assert(a == b || a > 0);
        if a == b {
            lemma_trim_subrange(s.drop_first(), 0, 0);
            assert(s.subrange(a, b) =~= s.drop_first().subrange(0, 0));
        } else {
            lemma_trim_subrange(s.drop_first(), a - 1, b - 1);
            assert(s.subrange(a, b) =~= s.drop_first().subrange(a - 1, b - 1));
        }
    } else {
        assert(a == 0);
        assert(a < b);
        if is_ws(s.last()) {
            assert(b < s.len());
            lemma_trim_subrange(s.drop_last(), a, b);
            assert(s.subrange(a, b) =~= s.drop_last().subrange(a, b));
        } else {
            assert(b == s.len());
            assert(s.subrange(0, s.len() as int) =~= s);
        }
    }
}

fn is_ws_byte(b: u8) -> (r: bool)
    ensures
        r == is_ws(b),
{
    b == 32 || b == 9 || b == 13 || b == 11 || b == 12
}

/// `v` without leading and trailing ASCII whitespace.
fn trim(v: &Vec<u8>) -> (t: Vec<u8>)
    ensures
        t@ == trim_bytes(v@),
{
    let n = v.len();
    let mut a: usize = 0;
    while a < n && is_ws_byte(v[a])
        invariant
            a <= n,
            n == v@.len(),
            forall|k: int| 0 <= k < a ==> is_ws(#[trigger] v@[k]),
        decreases n - a,
    {
        a = a + 1;
    }
    let mut b: usize = n;
    while b > a && is_ws_byte(v[b - 1])
        invariant
            a <= b <= n,
            n == v@.len(),
            forall|k: int| b <= k < n ==> is_ws(#[trigger] v@[k]),
        decreases b,
    {
        b = b - 1;
    }
    let mut t: Vec<u8> = Vec::new();
    let mut k = a;
    while k < b
        invariant
            a <= k <= b <= n,
            n == v@.len(),
            t@ =~= v@.subrange(a as int, k as int),
        decreases b - k,
    {
        t.push(v[k]);
        k = k + 1;
    }
    proof {
        lemma_trim_subrange(v@, a as int, b as int);
        assert(t@ =~= v@.subrange(a as int, b as int));
    }
    t
}

/// The lines of `s`, split at line feeds, as a vector of byte
/// vectors.
fn split_lines_exec(s: &[u8]) -> (lines: Vec<Vec<u8>>)
    ensures
        lines@.len() == split_lines(s@).len(),
        forall|k: int| 0 <= k < lines@.len() ==> #[trigger] lines@[k]@ == split_lines(s@)[k],
{
    let mut lines: Vec<Vec<u8>> = Vec::new();
    let mut cur: Vec<u8> = Vec::new();
    let mut idx: usize = 0;
    proof {
        assert(s@.skip(0) =~= s@);
        assert(lines@.map_values(|v: Vec<u8>| v@) =~= Seq::<Seq<u8>>::empty());
        assert(split_lines(s@) =~= lines@.map_values(|v: Vec<u8>| v@) + split_lines_from(
            s@.skip(0),
            cur@,
        ));
    }
    while idx < s.len()
        invariant
            idx <= s@.len(),
            split_lines(s@) == lines@.map_values(|v: Vec<u8>| v@) + split_lines_from(
                s@.skip(idx as int),
                cur@,
            ),
        decreases s@.len() - idx,
    {
        proof {
            assert(s@.skip(idx as int)[0] == s@[idx as int]);
            assert(s@.skip(idx as int).drop_first() =~= s@.skip(idx as int + 1));
        }
        if s[idx] == 10 {
            let ghost old_lines = lines@;
            let ghost old_cur = cur@;
            lines.push(cur);
            cur = Vec::new();
            proof {
                assert(lines@.map_values(|v: Vec<u8>| v@) =~= old_lines.map_values(
                    |v: Vec<u8>| v@,
                ).push(old_cur));
                assert(split_lines(s@) =~= lines@.map_values(|v: Vec<u8>| v@)
                    + split_lines_from(s@.skip(idx as int + 1), cur@));
            }
        } else {
            cur.push(s[idx]);
        }
        idx = idx + 1;
    }
    proof {
        assert(s@.skip(idx as int) =~= Seq::<u8>::empty());
    }
    if cur.len() > 0 {
        let ghost old_lines = lines@;
        let ghost old_cur = cur@;
        lines.push(cur);
        proof {
            assert(lines@.map_values(|v: Vec<u8>| v@) =~= old_lines.map_values(
                |v: Vec<u8>| v@,
            ).push(old_cur));
            assert(split_lines(s@) =~= lines@.map_values(|v: Vec<u8>| v@));
        }
    } else {
        proof {
            assert(split_lines(s@) =~= lines@.map_values(|v: Vec<u8>| v@));
        }
    }
    lines
}

/// A comment line: it starts with `#`, or with `!` where the format
/// also reserves `!` for comments.
pub open spec fn is_comment(t: Seq<u8>, bang: bool) -> bool {
    t.len() > 0 && (t[0] == 35 || (bang && t[0] == 33))
}

/// The trimmed non-comment lines, which carry the cells.
pub open spec fn content_rows(lines: Seq<Seq<u8>>, bang: bool) -> Seq<Seq<u8>>
    decreases lines.len(),
{
    if lines.len() == 0 {
        Seq::empty()
    } else {
        let t = trim_bytes(lines.last());
        content_rows(lines.drop_last(), bang) + if is_comment(t, bang) {
            Seq::empty()
        } else {
            seq![t]
        }
    }
}

/// A byte of the plaintext alphabet: `.` Dead; `*`, `o` or `O` Alive.
pub open spec fn plain_ok(b: u8) -> bool {
    b == 46 || b == 42 || b == 111 || b == 79
}

/// The cell a plaintext byte stands for.
pub open spec fn cell_of_plain(b: u8) -> Cell {
    if b == 46 {
        Cell::Dead
    } else {
        Cell::Alive
    }
}

/// One plaintext row, byte for byte.
pub open spec fn plain_cells(row: Seq<u8>) -> Seq<Cell> {
    Seq::new(row.len(), |k: int| cell_of_plain(row[k]))
}

/// The rows' cells, concatenated in row-major order.
pub open spec fn rows_cells(rows: Seq<Seq<u8>>) -> Seq<Cell>
    decreases rows.len(),
{
    if rows.len() == 0 {
        Seq::empty()
    } else {
        rows_cells(rows.drop_last()) + plain_cells(rows.last())
    }
}

/// Every byte of every row is in the plaintext alphabet.
pub open spec fn all_plain_ok(rows: Seq<Seq<u8>>) -> bool {
    forall|k: int, b: int|
        0 <= k < rows.len() && 0 <= b < rows[k].len() ==> plain_ok(#[trigger] rows[k][b])
}

/// The plaintext parse of a whole file: comment lines starting with
/// `#` or `!` are skipped, every other trimmed line is one row, the
/// width is the first row's length, the height the number of rows,
/// and any byte outside the alphabet rejects the file.
pub open spec fn plain_parse(s: Seq<u8>) -> Result<(Seq<Cell>, int, int), FormatError> {
    let rows = content_rows(split_lines(s), true);
    if all_plain_ok(rows) {
        Ok(
            (
                rows_cells(rows),
                if rows.len() == 0 {
                    0int
                } else {
                    rows[0].len() as int
                },
                rows.len() as int,
            ),
        )
    } else {
        Err(FormatError::BadCharacter)
    }
}

proof fn lemma_content_rows_take_step(lines: Seq<Seq<u8>>, j: int, bang: bool)
    requires
        0 <= j < lines.len(),
    ensures
        content_rows(lines.take(j + 1), bang) == content_rows(lines.take(j), bang) + if is_comment(
            trim_bytes(lines[j]),
            bang,
        ) {
            Seq::<Seq<u8>>::empty()
        } else {
            seq![trim_bytes(lines[j])]
        },
{
    assert(lines.take(j + 1).drop_last() =~= lines.take(j));
    assert(lines.take(j + 1).last() == lines[j]);
}

proof fn lemma_rows_cells_push(rows: Seq<Seq<u8>>, t: Seq<u8>)
    ensures
        rows_cells(rows.push(t)) == rows_cells(rows) + plain_cells(t),
{
    assert(rows.push(t).drop_last() =~= rows);
    assert(rows.push(t).last() == t);
}

proof fn lemma_content_rows_extend(lines: Seq<Seq<u8>>, j: int, bang: bool)
    requires
        0 <= j <= lines.len(),
    ensures
        content_rows(lines.take(j), bang).is_prefix_of(content_rows(lines, bang)),
    decreases lines.len() - j,
{
    if j == lines.len() {
        assert(lines.take(j) =~= lines);
    } else {
        lemma_content_rows_take_step(lines, j, bang);
        lemma_content_rows_extend(lines, j + 1, bang);
    }
}

/// Parse plaintext pattern text: `#` and `!` lines are comments,
/// every other line (trimmed) is one row of `.` (Dead) and `*`, `o`
/// or `O` (Alive) cells; the width is the first row's length and the
/// height the number of rows.
pub fn read_plaintext(input: &[u8]) -> (r: Result<(Vec<Cell>, (usize, usize)), FormatError>)
    ensures
        r is Ok <==> plain_parse(input@) is Ok,
        r matches Ok(out) ==> plain_parse(input@) == Ok::<(Seq<Cell>, int, int), FormatError>(
            (out.0@, out.1.0 as int, out.1.1 as int),
        ),
        r matches Err(e) ==> plain_parse(input@) == Err::<(Seq<Cell>, int, int), FormatError>(e),
{
    let lines = split_lines_exec(input);
    let ghost lseq = split_lines(input@);
    let mut cells: Vec<Cell> = Vec::new();
    let mut width: usize = 0;
    let mut height: usize = 0;
    let mut li: usize = 0;
    proof {
        assert(lseq.take(0) =~= Seq::<Seq<u8>>::empty());
        assert(content_rows(lseq.take(0), true) =~= Seq::<Seq<u8>>::empty());
    }
    while li < lines.len()
        invariant
            lines@.len() == lseq.len(),
            forall|k: int| 0 <= k < lines@.len() ==> #[trigger] lines@[k]@ == lseq[k],
            lseq == split_lines(input@),
            li <= lines@.len(),
            height <= li,
            ({
                let rows = content_rows(lseq.take(li as int), true);
                &&& all_plain_ok(rows)
                &&& cells@ == rows_cells(rows)
                &&& height as int == rows.len()
                &&& width as int == if rows.len() == 0 {
                    0int
                } else {
                    rows[0].len() as int
                }
            }),
        decreases lines@.len() - li,
    {
        let ghost rows0 = content_rows(lseq.take(li as int), true);
        let t = trim(&lines[li]);
        proof {
            lemma_content_rows_take_step(lseq, li as int, true);
        }
        let is_com = t.len() > 0 && (t[0] == 35 || t[0] == 33);
        if !is_com {
            let ghost rows1 = content_rows(lseq.take(li as int + 1), true);
            proof {
                assert(rows1 == rows0.push(t@));
                lemma_rows_cells_push(rows0, t@);
            }
            let mut bi: usize = 0;
            while bi < t.len()
                invariant
                    bi <= t@.len(),
                    rows0 == content_rows(lseq.take(li as int), true),
                    rows1 == content_rows(lseq.take(li as int + 1), true),
                    rows1 == rows0.push(t@),
                    all_plain_ok(rows0),
                    forall|k: int| 0 <= k < bi ==> plain_ok(#[trigger] t@[k]),
                    cells@ == rows_cells(rows0) + plain_cells(t@.take(bi as int)),
                    lseq == split_lines(input@),
                    li < lseq.len(),
                decreases t@.len() - bi,
            {
                let b = t[bi];
                let cell = if b == 46 {
                    Cell::Dead
                } else if b == 42 || b == 111 || b == 79 {
                    Cell::Alive
                } else {
                    proof {
                        lemma_content_rows_extend(lseq, li as int + 1, true);
                        let rows = content_rows(lseq, true);
                        assert(rows1.len() <= rows.len());
                        assert(rows1 =~= rows.subrange(0, rows1.len() as int));
                        assert(rows[rows0.len() as int] == rows1[rows0.len() as int]);
                        assert(rows[rows0.len() as int] == t@);
                        assert(!plain_ok(rows[rows0.len() as int][bi as int]));
                        assert(!all_plain_ok(rows));
                    }
                    return Err(FormatError::BadCharacter);
                };
                cells.push(cell);
                proof {
                    assert(plain_cells(t@.take(bi as int + 1)) =~= plain_cells(
                        t@.take(bi as int),
                    ).push(cell_of_plain(t@[bi as int])));
                }
                bi = bi + 1;
            }
            proof {
                assert(t@.take(t@.len() as int) =~= t@);
                assert(cells@ == rows_cells(rows1));
                assert(all_plain_ok(rows1)) by {
                    assert(forall|k: int| 0 <= k < rows1.len() - 1 ==> #[trigger] rows1[k]
                        == rows0[k]);
                }
            }
            if height == 0 {
                width = t.len();
            }
            height = height + 1;
        } else {
            proof {
                assert(content_rows(lseq.take(li as int + 1), true) =~= rows0);
            }
        }
        li = li + 1;
    }
    proof {
        assert(lseq.take(lseq.len() as int) =~= lseq);
    }
    Ok((cells, (width, height)))
}

/// A byte of the Life 1.05 alphabet: `.` Dead, `*` Alive.
pub open spec fn life_ok(b: u8) -> bool {
    b == 46 || b == 42
}

/// Every byte of every row is in the Life 1.05 alphabet.
pub open spec fn all_life_ok(rows: Seq<Seq<u8>>) -> bool {
    forall|k: int, b: int|
        0 <= k < rows.len() && 0 <= b < rows[k].len() ==> life_ok(#[trigger] rows[k][b])
}

/// The Life 1.05 parse of a whole file: comment lines starting with
/// `#` are skipped, every other trimmed line is one row of `.` and
/// `*` cells, the width is the first row's length and the height the
/// number of rows, and any other byte rejects the file.
pub open spec fn life105_parse(s: Seq<u8>) -> Result<(Seq<Cell>, int, int), FormatError> {
    let rows = content_rows(split_lines(s), false);
    if all_life_ok(rows) {
        Ok(
            (
                rows_cells(rows),
                if rows.len() == 0 {
                    0int
                } else {
                    rows[0].len() as int
                },
                rows.len() as int,
            ),
        )
    } else {
        Err(FormatError::BadCharacter)
    }
}

/// Parse Life 1.05 pattern text: `#` lines are comments, every other
/// line (trimmed) is one row of `.` (Dead) and `*` (Alive) cells;
/// the width is the first row's length and the height the number of
/// rows.
pub fn read_life105(input: &[u8]) -> (r: Result<(Vec<Cell>, (usize, usize)), FormatError>)
    ensures
        r is Ok <==> life105_parse(input@) is Ok,
        r matches Ok(out) ==> life105_parse(input@) == Ok::<(Seq<Cell>, int, int), FormatError>(
            (out.0@, out.1.0 as int, out.1.1 as int),
        ),
        r matches Err(e) ==> life105_parse(input@) == Err::<(Seq<Cell>, int, int), FormatError>(
            e,
        ),
{
    let lines = split_lines_exec(input);
    let ghost lseq = split_lines(input@);
    let mut cells: Vec<Cell> = Vec::new();
    let mut width: usize = 0;
    let mut height: usize = 0;
    let mut li: usize = 0;
    proof {
        assert(lseq.take(0) =~= Seq::<Seq<u8>>::empty());
        assert(content_rows(lseq.take(0), false) =~= Seq::<Seq<u8>>::empty());
    }
    while li < lines.len()
        invariant
            lines@.len() == lseq.len(),
            forall|k: int| 0 <= k < lines@.len() ==> #[trigger] lines@[k]@ == lseq[k],
            lseq == split_lines(input@),
            li <= lines@.len(),
            height <= li,
            ({
                let rows = content_rows(lseq.take(li as int), false);
                &&& all_life_ok(rows)
                &&& cells@ == rows_cells(rows)
                &&& height as int == rows.len()
                &&& width as int == if rows.len() == 0 {
                    0int
                } else {
                    rows[0].len() as int
                }
            }),
        decreases lines@.len() - li,
    {
        let ghost rows0 = content_rows(lseq.take(li as int), false);
        let t = trim(&lines[li]);
        proof {
            lemma_content_rows_take_step(lseq, li as int, false);
        }
        let is_com = t.len() > 0 && t[0] == 35;
        if !is_com {
            let ghost rows1 = content_rows(lseq.take(li as int + 1), false);
            proof {
                assert(rows1 == rows0.push(t@));
                lemma_rows_cells_push(rows0, t@);
            }
            let mut bi: usize = 0;
            while bi < t.len()
                invariant
                    bi <= t@.len(),
                    rows0 == content_rows(lseq.take(li as int), false),
                    rows1 == content_rows(lseq.take(li as int + 1), false),
                    rows1 == rows0.push(t@),
                    all_life_ok(rows0),
                    forall|k: int| 0 <= k < bi ==> life_ok(#[trigger] t@[k]),
                    cells@ == rows_cells(rows0) + plain_cells(t@.take(bi as int)),
                    lseq == split_lines(input@),
                    li < lseq.len(),
                decreases t@.len() - bi,
            {
                let b = t[bi];
                let cell = if b == 46 {
                    Cell::Dead
                } else if b == 42 {
                    Cell::Alive
                } else {
                    proof {
                        lemma_content_rows_extend(lseq, li as int + 1, false);
                        let rows = content_rows(lseq, false);
                        assert(rows1.len() <= rows.len());
                        assert(rows1 =~= rows.subrange(0, rows1.len() as int));
                        assert(rows[rows0.len() as int] == rows1[rows0.len() as int]);
                        assert(rows[rows0.len() as int] == t@);
                        assert(!life_ok(rows[rows0.len() as int][bi as int]));
                        assert(!all_life_ok(rows));
                    }
                    return Err(FormatError::BadCharacter);
                };
                cells.push(cell);
                proof {
                    assert(plain_cells(t@.take(bi as int + 1)) =~= plain_cells(
                        t@.take(bi as int),
                    ).push(cell_of_plain(t@[bi as int])));
                }
                bi = bi + 1;
            }
            proof {
                assert(t@.take(t@.len() as int) =~= t@);
                assert(cells@ == rows_cells(rows1));
                assert(all_life_ok(rows1)) by {
                    assert(forall|k: int| 0 <= k < rows1.len() - 1 ==> #[trigger] rows1[k]
                        == rows0[k]);
                }
            }
            if height == 0 {
                width = t.len();
            }
            height = height + 1;
        } else {
            proof {
                assert(content_rows(lseq.take(li as int + 1), false) =~= rows0);
            }
        }
        li = li + 1;
    }
    proof {
        assert(lseq.take(lseq.len() as int) =~= lseq);
    }
    Ok((cells, (width, height)))
}

/// `n` copies of one cell.
pub open spec fn run_of(c: Cell, n: int) -> Seq<Cell> {
    Seq::new(n as nat, |k: int| c)
}

/// The pieces of `s` split at commas; a split always yields at least
/// one piece, and a trailing comma yields a trailing empty piece.
pub open spec fn split_commas_from(s: Seq<u8>, cur: Seq<u8>) -> Seq<Seq<u8>>
    decreases s.len(),
{
    if s.len() == 0 {
        seq![cur]
    } else if s[0] == 44 {
        seq![cur] + split_commas_from(s.drop_first(), Seq::empty())
    } else {
        split_commas_from(s.drop_first(), cur.push(s[0]))
    }
}

/// The pieces of `s` split at commas.
pub open spec fn split_commas(s: Seq<u8>) -> Seq<Seq<u8>> {
    split_commas_from(s, Seq::empty())
}

/// The position of the first `b` in `s`, or `s`'s length.
pub open spec fn first_byte_at(s: Seq<u8>, b: u8) -> int
    decreases s.len(),
{
    if s.len() == 0 {
        0
    } else if s[0] == b {
        0
    } else {
        1 + first_byte_at(s.drop_first(), b)
    }
}

/// Every byte of `d` is a decimal digit.
pub open spec fn all_digits(d: Seq<u8>) -> bool {
    forall|k: int| 0 <= k < d.len() ==> 48 <= #[trigger] d[k] <= 57
}

/// The decimal value of a digit string.
pub open spec fn digits_value(d: Seq<u8>) -> int
    decreases d.len(),
{
    if d.len() == 0 {
        0
    } else {
        digits_value(d.drop_last()) * 10 + (d.last() - 48)
    }
}

/// A decimal number the machine can hold: nonempty, digits only, and
/// at most the largest machine integer.
pub open spec fn parse_usize_spec(d: Seq<u8>) -> Result<int, FormatError> {
    if d.len() == 0 {
        Err(FormatError::BadHeader)
    } else if !all_digits(d) {
        Err(FormatError::BadHeader)
    } else if digits_value(d) > usize::MAX as int {
        Err(FormatError::BadHeader)
    } else {
        Ok(digits_value(d))
    }
}

/// The value of one `key = value` header piece: the text between the
/// first `=` and the next `=` or the piece's end, trimmed, as a
/// decimal number; a piece without `=` is rejected.
pub open spec fn header_value(p: Seq<u8>) -> Result<int, FormatError> {
    let k1 = first_byte_at(p, 61);
    if k1 >= p.len() {
        Err(FormatError::BadHeader)
    } else {
        let rest = p.skip(k1 + 1);
        parse_usize_spec(trim_bytes(rest.take(first_byte_at(rest, 61))))
    }
}

/// The size header read piece by piece: a piece whose first non-blank
/// byte is `x` sets the width, one with `y` the height, any other
/// piece is ignored, and an all-blank piece is rejected.
pub open spec fn header_fold(pieces: Seq<Seq<u8>>, w: int, h: int) -> Result<
    (int, int),
    FormatError,
>
    decreases pieces.len(),
{
    if pieces.len() == 0 {
        Ok((w, h))
    } else {
        let p = pieces[0];
        let rest = pieces.drop_first();
        let t = trim_bytes(p);
        if t.len() == 0 {
            Err(FormatError::BadHeader)
        } else if t[0] == 120 {
            match header_value(p) {
                Ok(v) => header_fold(rest, v, h),
                Err(e) => Err(e),
            }
        } else if t[0] == 121 {
            match header_value(p) {
                Ok(v) => header_fold(rest, w, v),
                Err(e) => Err(e),
            }
        } else {
            header_fold(rest, w, h)
        }
    }
}

/// The whole size-header line, split at commas and folded.
pub open spec fn rle_header(raw: Seq<u8>, w: int, h: int) -> Result<(int, int), FormatError> {
    header_fold(split_commas(raw), w, h)
}

/// One content line of the run-length stream, byte by byte: digits
/// accumulate a count, `b` and `o` emit that many Dead or Alive cells
/// (one when no count was given), `$` ends the row and pads it to the
/// width with Dead cells, and `!` ends the whole pattern; the count
/// carries over a row end, and an unfinished count is dropped at the
/// line's end.
pub open spec fn rle_line(
    bytes: Seq<u8>,
    w: int,
    count: int,
    has: bool,
    lw: int,
    cells: Seq<Cell>,
) -> Result<(Seq<Cell>, bool), FormatError>
    decreases bytes.len(),
{
    if bytes.len() == 0 {
        Ok((cells, false))
    } else {
        let b = bytes[0];
        let rest = bytes.drop_first();
        if 48 <= b <= 57 {
            rle_line(rest, w, count * 10 + (b - 48), true, lw, cells)
        } else if b == 36 {
            if lw > w {
                Err(FormatError::RowTooLong)
            } else {
                rle_line(rest, w, count, has, 0, cells + run_of(Cell::Dead, w - lw))
            }
        } else if b == 98 || b == 111 {
            let n = if has {
                count
            } else {
                1int
            };
            if n > usize::MAX as int {
                Err(FormatError::BadCount)
            } else {
                rle_line(
                    rest,
                    w,
                    0,
                    false,
                    lw + n,
                    cells + run_of(
                        if b == 98 {
                            Cell::Dead
                        } else {
                            Cell::Alive
                        },
                        n,
                    ),
                )
            }
        } else if b == 33 {
            Ok((cells, true))
        } else {
            Err(FormatError::BadCharacter)
        }
    }
}

/// The run-length file, line by line: comment lines starting with `#`
/// are skipped, the first other line is the size header, and each
/// later line feeds the run-length stream; a stream line while either
/// dimension is zero is rejected, and everything after the pattern's
/// `!` terminator is ignored.
pub open spec fn rle_lines(
    lines: Seq<Seq<u8>>,
    have: bool,
    w: int,
    h: int,
    cells: Seq<Cell>,
    done: bool,
) -> Result<(int, int, Seq<Cell>), FormatError>
    decreases lines.len(),
{
    if lines.len() == 0 {
        Ok((w, h, cells))
    } else {
        let raw = lines[0];
        let rest = lines.drop_first();
        let t = trim_bytes(raw);
        if done || is_comment(t, false) {
            rle_lines(rest, have, w, h, cells, done)
        } else if !have {
            match rle_header(raw, w, h) {
                Ok(wh) => rle_lines(rest, true, wh.0, wh.1, cells, done),
                Err(e) => Err(e),
            }
        } else if w == 0 || h == 0 {
            Err(FormatError::SizeUnknown)
        } else {
            match rle_line(t, w, 0, false, 0, cells) {
                Ok(cd) => rle_lines(rest, have, w, h, cd.0, cd.1),
                Err(e) => Err(e),
            }
        }
    }
}

/// The run-length parse of a whole file.
pub open spec fn rle_parse(s: Seq<u8>) -> Result<(Seq<Cell>, int, int), FormatError> {
    match rle_lines(split_lines(s), false, 0, 0, Seq::empty(), false) {
        Ok(whc) => Ok((whc.2, whc.0, whc.1)),
        Err(e) => Err(e),
    }
}

proof fn lemma_digits_nonneg(d: Seq<u8>)
    requires
        all_digits(d),
    ensures
        digits_value(d) >= 0,
    decreases d.len(),
{
    if d.len() > 0 {
        assert(all_digits(d.drop_last()));
        lemma_digits_nonneg(d.drop_last());
    }
}

proof fn lemma_digits_monotone(d: Seq<u8>, j: int)
    requires
        all_digits(d),
        0 <= j <= d.len(),
    ensures
        digits_value(d.take(j)) <= digits_value(d),
    decreases d.len() - j,
{
    if j == d.len() {
        assert(d.take(j) =~= d);
    } else {
        assert(d.take(j + 1).drop_last() =~= d.take(j));
        assert(all_digits(d.take(j)));
        lemma_digits_nonneg(d.take(j));
        lemma_digits_monotone(d, j + 1);
    }
}

proof fn lemma_times_ten_bound(acc: int, dig: int, m: int)
    requires
        0 <= dig <= m,
    ensures
        acc <= (m - dig) / 10 <==> acc * 10 + dig <= m,
{
    vstd::arithmetic::div_mod::lemma_fundamental_div_mod(m - dig, 10);
    vstd::arithmetic::div_mod::lemma_mod_bound(m - dig, 10);
}

proof fn lemma_first_byte_at_is(s: Seq<u8>, b: u8, k: int)
    requires
        0 <= k <= s.len(),
        forall|m: int| 0 <= m < k ==> s[m] != b,
        k < s.len() ==> s[k] == b,
    ensures
        first_byte_at(s, b) == k,
    decreases s.len(),
{
    if s.len() == 0 {
    } else if k == 0 {
    } else {
        assert(s[0] != b);
        lemma_first_byte_at_is(s.drop_first(), b, k - 1);
    }
}

/// The pieces of `s`, split at commas, as a vector of byte vectors.
fn split_commas_exec(s: &Vec<u8>) -> (pieces: Vec<Vec<u8>>)
    ensures
        pieces@.len() == split_commas(s@).len(),
        forall|k: int| 0 <= k < pieces@.len() ==> #[trigger] pieces@[k]@ == split_commas(s@)[k],
{
    let mut pieces: Vec<Vec<u8>> = Vec::new();
    let mut cur: Vec<u8> = Vec::new();
    let mut idx: usize = 0;
    proof {
        assert(s@.skip(0) =~= s@);
        assert(pieces@.map_values(|v: Vec<u8>| v@) =~= Seq::<Seq<u8>>::empty());
        assert(split_commas(s@) =~= pieces@.map_values(|v: Vec<u8>| v@) + split_commas_from(
            s@.skip(0),
            cur@,
        ));
    }
    while idx < s.len()
        invariant
            idx <= s@.len(),
            split_commas(s@) == pieces@.map_values(|v: Vec<u8>| v@) + split_commas_from(
                s@.skip(idx as int),
                cur@,
            ),
        decreases s@.len() - idx,
    {
        proof {
            assert(s@.skip(idx as int)[0] == s@[idx as int]);
            assert(s@.skip(idx as int).drop_first() =~= s@.skip(idx as int + 1));
        }
        if s[idx] == 44 {
            let ghost old_pieces = pieces@;
            let ghost old_cur = cur@;
            pieces.push(cur);
            cur = Vec::new();
            proof {
                assert(pieces@.map_values(|v: Vec<u8>| v@) =~= old_pieces.map_values(
                    |v: Vec<u8>| v@,
                ).push(old_cur));
                assert(split_commas(s@) =~= pieces@.map_values(|v: Vec<u8>| v@)
                    + split_commas_from(s@.skip(idx as int + 1), cur@));
            }
        } else {
            cur.push(s[idx]);
        }
        idx = idx + 1;
    }
    proof {
        assert(s@.skip(idx as int) =~= Seq::<u8>::empty());
    }
    let ghost old_pieces = pieces@;
    let ghost old_cur = cur@;
    pieces.push(cur);
    proof {
        assert(pieces@.map_values(|v: Vec<u8>| v@) =~= old_pieces.map_values(
            |v: Vec<u8>| v@,
        ).push(old_cur));
        assert(split_commas(s@) =~= pieces@.map_values(|v: Vec<u8>| v@));
    }
    pieces
}

/// Read `d` as a decimal number that fits the machine.
fn parse_usize_exec(d: &Vec<u8>) -> (r: Result<usize, FormatError>)
    ensures
        r matches Ok(v) ==> parse_usize_spec(d@) == Ok::<int, FormatError>(v as int),
        r matches Err(e) ==> parse_usize_spec(d@) == Err::<int, FormatError>(e),
{
    let n = d.len();
    if n == 0 {
        return Err(FormatError::BadHeader);
    }
    let mut acc: usize = 0;
    let mut j: usize = 0;
    proof {
        assert(d@.take(0) =~= Seq::<u8>::empty());
    }
    while j < n
        invariant
            j <= n,
            n == d@.len(),
            forall|k: int| 0 <= k < j ==> 48 <= #[trigger] d@[k] <= 57,
            acc as int == digits_value(d@.take(j as int)),
        decreases n - j,
    {
        let b = d[j];
        if !(48 <= b && b <= 57) {
            proof {
                assert(!(48 <= d@[j as int] <= 57));
                assert(!all_digits(d@));
            }
            return Err(FormatError::BadHeader);
        }
        let dig = (b - 48) as usize;
        proof {
            assert(d@.take(j as int + 1).drop_last() =~= d@.take(j as int));
            assert(digits_value(d@.take(j as int + 1)) == acc as int * 10 + dig as int);
            lemma_times_ten_bound(acc as int, dig as int, usize::MAX as int);
        }
        if acc > (usize::MAX - dig) / 10 {
            proof {
                if all_digits(d@) {
                    lemma_digits_monotone(d@, j as int + 1);
                }
            }
            return Err(FormatError::BadHeader);
        }
        acc = acc * 10 + dig;
        j = j + 1;
    }
    proof {
        assert(d@.take(n as int) =~= d@);
    }
    Ok(acc)
}

/// Read the decimal value of one `key = value` header piece.
fn header_value_exec(p: &Vec<u8>) -> (r: Result<usize, FormatError>)
    ensures
        r matches Ok(v) ==> header_value(p@) == Ok::<int, FormatError>(v as int),
        r matches Err(e) ==> header_value(p@) == Err::<int, FormatError>(e),
{
    let n = p.len();
    let mut k1: usize = 0;
    while k1 < n && p[k1] != 61
        invariant
            k1 <= n,
            n == p@.len(),
            forall|m: int| 0 <= m < k1 ==> p@[m] != 61,
        decreases n - k1,
    {
        k1 = k1 + 1;
    }
    proof {
        lemma_first_byte_at_is(p@, 61, k1 as int);
    }
    if k1 == n {
        return Err(FormatError::BadHeader);
    }
    let mut k2: usize = k1 + 1;
    while k2 < n && p[k2] != 61
        invariant
            k1 + 1 <= k2 <= n,
            n == p@.len(),
            forall|m: int| k1 + 1 <= m < k2 ==> p@[m] != 61,
        decreases n - k2,
    {
        k2 = k2 + 1;
    }
    let ghost rest = p@.skip(k1 as int + 1);
    proof {
        assert(forall|m: int| 0 <= m < k2 - k1 - 1 ==> rest[m] != 61);
        assert(k2 < n ==> rest[k2 - k1 - 1] == 61);
        lemma_first_byte_at_is(rest, 61, k2 as int - k1 as int - 1);
    }
    let mut val: Vec<u8> = Vec::new();
    let mut m = k1 + 1;
    while m < k2
        invariant
            k1 + 1 <= m <= k2 <= n,
            n == p@.len(),
            val@ =~= p@.subrange(k1 as int + 1, m as int),
        decreases k2 - m,
    {
        val.push(p[m]);
        m = m + 1;
    }
    proof {
        assert(val@ =~= rest.take(k2 as int - k1 as int - 1));
    }
    let tv = trim(&val);
    parse_usize_exec(&tv)
}

/// Read the size-header line, starting from the sizes known so far.
fn rle_header_exec(raw: &Vec<u8>, w: usize, h: usize) -> (r: Result<(usize, usize), FormatError>)
    ensures
        r matches Ok(wh) ==> rle_header(raw@, w as int, h as int) == Ok::<
            (int, int),
            FormatError,
        >((wh.0 as int, wh.1 as int)),
        r matches Err(e) ==> rle_header(raw@, w as int, h as int) == Err::<
            (int, int),
            FormatError,
        >(e),
{
    let pieces = split_commas_exec(raw);
    let ghost pseq = split_commas(raw@);
    let mut wc = w;
    let mut hc = h;
    let mut pi: usize = 0;
    proof {
        assert(pseq.skip(0) =~= pseq);
    }
    while pi < pieces.len()
        invariant
            pseq == split_commas(raw@),
            pieces@.len() == pseq.len(),
            forall|k: int| 0 <= k < pieces@.len() ==> #[trigger] pieces@[k]@ == pseq[k],
            pi <= pieces@.len(),
            header_fold(pseq, w as int, h as int) == header_fold(
                pseq.skip(pi as int),
                wc as int,
                hc as int,
            ),
        decreases pieces@.len() - pi,
    {
        proof {
            assert(pieces@[pi as int]@ == pseq[pi as int]);
            assert(pseq.skip(pi as int)[0] == pseq[pi as int]);
            assert(pseq.skip(pi as int).drop_first() =~= pseq.skip(pi as int + 1));
        }
        let t = trim(&pieces[pi]);
        if t.len() == 0 {
            return Err(FormatError::BadHeader);
        }
        if t[0] == 120 {
            match header_value_exec(&pieces[pi]) {
                Ok(v) => {
                    wc = v;
                },
                Err(e) => {
                    return Err(e);
                },
            }
        } else if t[0] == 121 {
            match header_value_exec(&pieces[pi]) {
                Ok(v) => {
                    hc = v;
                },
                Err(e) => {
                    return Err(e);
                },
            }
        }
        pi = pi + 1;
    }
    proof {
        assert(pseq.skip(pseq.len() as int) =~= Seq::<Seq<u8>>::empty());
    }
    Ok((wc, hc))
}

/// Feed one trimmed content line to the run-length stream, appending
/// its cells; the result says whether the pattern's terminator was
/// reached.
fn rle_line_exec(t: &Vec<u8>, w: usize, cells: &mut Vec<Cell>) -> (r: Result<bool, FormatError>)
    ensures
        r matches Ok(done) ==> rle_line(t@, w as int, 0, false, 0, old(cells)@) == Ok::<
            (Seq<Cell>, bool),
            FormatError,
        >((final(cells)@, done)),
        r matches Err(e) ==> rle_line(t@, w as int, 0, false, 0, old(cells)@) == Err::<
            (Seq<Cell>, bool),
            FormatError,
        >(e),
{
    let n = t.len();
    let mut count: usize = 0;
    let mut over: bool = false;
    let ghost mut gcount: int = 0;
    let mut has: bool = false;
    let mut lw: usize = 0;
    let mut lw_over: bool = false;
    let ghost mut glw: int = 0;
    let mut bi: usize = 0;
    proof {
        assert(t@.skip(0) =~= t@);
    }
    while bi < n
        invariant
            bi <= n,
            n == t@.len(),
            gcount >= 0,
            !over ==> count as int == gcount,
            over ==> gcount > usize::MAX as int,
            glw >= 0,
            !lw_over ==> lw as int == glw,
            lw_over ==> glw > usize::MAX as int,
            rle_line(t@, w as int, 0, false, 0, old(cells)@) == rle_line(
                t@.skip(bi as int),
                w as int,
                gcount,
                has,
                glw,
                cells@,
            ),
        decreases n - bi,
    {
        proof {
            assert(t@.skip(bi as int)[0] == t@[bi as int]);
            assert(t@.skip(bi as int).drop_first() =~= t@.skip(bi as int + 1));
        }
        let b = t[bi];
        if 48 <= b && b <= 57 {
            let dig = (b - 48) as usize;
            proof {
                lemma_times_ten_bound(count as int, dig as int, usize::MAX as int);
            }
            if over {
            } else if count > (usize::MAX - dig) / 10 {
                over = true;
            } else {
                count = count * 10 + dig;
            }
            has = true;
            proof {
                gcount = gcount * 10 + (b - 48) as int;
            }
        } else if b == 36 {
            if lw_over || lw > w {
                return Err(FormatError::RowTooLong);
            }
            let pad = w - lw;
            let ghost cells_before = cells@;
            let mut pp: usize = 0;
            proof {
                assert(cells@ =~= cells_before + run_of(Cell::Dead, 0));
            }
            while pp < pad
                invariant
                    pp <= pad,
                    cells@ == cells_before + run_of(Cell::Dead, pp as int),
                decreases pad - pp,
            {
                cells.push(Cell::Dead);
                proof {
                    assert(cells_before + run_of(Cell::Dead, pp as int + 1) =~= (cells_before
                        + run_of(Cell::Dead, pp as int)).push(Cell::Dead));
                }
                pp = pp + 1;
            }
            lw = 0;
            lw_over = false;
            proof {
                glw = 0;
            }
        } else if b == 98 || b == 111 {
            if has && over {
                return Err(FormatError::BadCount);
            }
            let eff: usize = if has {
                count
            } else {
                1
            };
            let cell = if b == 98 {
                Cell::Dead
            } else {
                Cell::Alive
            };
            let ghost gn: int = if has {
                gcount
            } else {
                1int
            };
            let ghost cells_before = cells@;
            let mut pp: usize = 0;
            proof {
                assert(cells@ =~= cells_before + run_of(cell, 0));
            }
            while pp < eff
                invariant
                    pp <= eff,
                    cells@ == cells_before + run_of(cell, pp as int),
                decreases eff - pp,
            {
                cells.push(cell);
                proof {
                    assert(cells_before + run_of(cell, pp as int + 1) =~= (cells_before + run_of(
                        cell,
                        pp as int,
                    )).push(cell));
                }
                pp = pp + 1;
            }
            if lw_over || lw > usize::MAX - eff {
                lw_over = true;
            } else {
                lw = lw + eff;
            }
            proof {
                glw = glw + gn;
            }
            count = 0;
            over = false;
            has = false;
            proof {
                gcount = 0;
            }
        } else if b == 33 {
            return Ok(true);
        } else {
            return Err(FormatError::BadCharacter);
        }
        bi = bi + 1;
    }
    proof {
        assert(t@.skip(n as int) =~= Seq::<u8>::empty());
    }
    Ok(false)
}

/// Parse run-length-encoded pattern text: `#` lines are comments,
/// the first other line declares `x = <width>, y = <height>`, and the
/// rest is a stream of counted `b`/`o` cell runs with `$` row ends,
/// closed by `!`.
pub fn read_rle(input: &[u8]) -> (r: Result<(Vec<Cell>, (usize, usize)), FormatError>)
    ensures
        r is Ok <==> rle_parse(input@) is Ok,
        r matches Ok(out) ==> rle_parse(input@) == Ok::<(Seq<Cell>, int, int), FormatError>(
            (out.0@, out.1.0 as int, out.1.1 as int),
        ),
        r matches Err(e) ==> rle_parse(input@) == Err::<(Seq<Cell>, int, int), FormatError>(e),
{
    let lines = split_lines_exec(input);
    let ghost lseq = split_lines(input@);
    let mut cells: Vec<Cell> = Vec::new();
    let mut width: usize = 0;
    let mut height: usize = 0;
    let mut have: bool = false;
    let mut done: bool = false;
    let mut li: usize = 0;
    proof {
        assert(lseq.skip(0) =~= lseq);
    }
    while li < lines.len()
        invariant
            lines@.len() == lseq.len(),
            forall|k: int| 0 <= k < lines@.len() ==> #[trigger] lines@[k]@ == lseq[k],
            lseq == split_lines(input@),
            li <= lines@.len(),
            rle_lines(lseq, false, 0, 0, Seq::empty(), false) == rle_lines(
                lseq.skip(li as int),
                have,
                width as int,
                height as int,
                cells@,
                done,
            ),
        decreases lines@.len() - li,
    {
        proof {
            assert(lseq.skip(li as int)[0] == lseq[li as int]);
            assert(lseq.skip(li as int).drop_first() =~= lseq.skip(li as int + 1));
        }
        let t = trim(&lines[li]);
        let is_com = t.len() > 0 && t[0] == 35;
        if done || is_com {
        } else if !have {
            match rle_header_exec(&lines[li], width, height) {
                Ok(wh) => {
                    width = wh.0;
                    height = wh.1;
                    have = true;
                },
                Err(e) => {
                    return Err(e);
                },
            }
        } else {
            if width == 0 || height == 0 {
                return Err(FormatError::SizeUnknown);
            }
            match rle_line_exec(&t, width, &mut cells) {
                Ok(d) => {
                    done = d;
                },
                Err(e) => {
                    return Err(e);
                },
            }
        }
        li = li + 1;
    }
    proof {
        assert(lseq.skip(lseq.len() as int) =~= Seq::<Seq<u8>>::empty());
    }
    Ok((cells, (width, height)))
}

} // verus!
