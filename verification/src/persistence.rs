use vstd::prelude::*;

use crate::blocks::block::{block_at_spec, Block};
use crate::blocks::block_type::{block_type_id, block_type_of_id, BlockType};
use crate::chunk::{cell, cell_position, columns_view, put_cell, Chunk, Column};
use crate::utils::BlockPos;

verus! {

/// Decimal digits of a natural number, most significant first.
pub open spec fn dec_nat(n: nat) -> Seq<u8>
    decreases n,
{
    if n < 10 {
        seq![(48 + n) as u8]
    } else {
        dec_nat(n / 10).push((48 + n % 10) as u8)
    }
}

/// Decimal text of an integer, with a leading `-` when it is negative.
pub open spec fn dec_int(v: int) -> Seq<u8> {
    if v < 0 {
        seq![45u8] + dec_nat((-v) as nat)
    } else {
        dec_nat(v as nat)
    }
}

pub open spec fn is_digit(c: u8) -> bool {
    48 <= c <= 57
}

pub open spec fn all_digits(s: Seq<u8>) -> bool {
    forall|i: int| 0 <= i < s.len() ==> is_digit(#[trigger] s[i])
}

/// The number that a string of decimal digits denotes.
pub open spec fn digits_value(s: Seq<u8>) -> nat
    decreases s.len(),
{
    if s.len() == 0 {
        0
    } else {
        digits_value(s.drop_last()) * 10 + (s.last() - 48) as nat
    }
}

/// What `str::parse::<u32>` gives: an optional `+`, then at least one digit,
/// for a value that fits in `u32`.
pub open spec fn parse_u32_spec(s: Seq<u8>) -> Option<u32> {
    let d = if s.len() > 0 && s[0] == 43u8 { s.subrange(1, s.len() as int) } else { s };
    if d.len() > 0 && all_digits(d) && digits_value(d) <= u32::MAX {
        Some(digits_value(d) as u32)
    } else {
        None
    }
}

/// What `str::parse::<i32>` gives: an optional `+` or `-`, then at least one
/// digit, for a value that fits in `i32`.
pub open spec fn parse_i32_spec(s: Seq<u8>) -> Option<i32> {
    let neg = s.len() > 0 && s[0] == 45u8;
    let d = if s.len() > 0 && (s[0] == 43u8 || s[0] == 45u8) { s.subrange(1, s.len() as int) } else { s };
    let v: int = if neg { -(digits_value(d) as int) } else { digits_value(d) as int };
    if d.len() > 0 && all_digits(d) && i32::MIN <= v <= i32::MAX {
        Some(v as i32)
    } else {
        None
    }
}

/// The pieces of `s` between the separators `sep`, as `str::split` gives
/// them: always at least one, possibly empty.
pub open spec fn split_on(s: Seq<u8>, sep: u8) -> Seq<Seq<u8>>
    decreases s.len(),
{
    if s.len() == 0 {
        seq![seq![]]
    } else {
        let r = split_on(s.drop_last(), sep);
        if s.last() == sep {
            r.push(seq![])
        } else {
            r.update(r.len() - 1, r.last().push(s.last()))
        }
    }
}

/// A line that ended with `\r\n` loses its `\r`.
pub open spec fn strip_cr(line: Seq<u8>) -> Seq<u8> {
    if line.len() > 0 && line.last() == 13u8 {
        line.drop_last()
    } else {
        line
    }
}

/// The lines of a text, as `str::lines` gives them: split at `\n`, a `\r`
/// before the `\n` dropped, and no empty line after a final `\n`.
pub open spec fn text_lines(s: Seq<u8>) -> Seq<Seq<u8>> {
    let segs = split_on(s, 10u8);
    let done = segs.drop_last().map_values(|l: Seq<u8>| strip_cr(l));
    if segs.last().len() == 0 {
        done
    } else {
        done.push(segs.last())
    }
}

pub proof fn lemma_split_nonempty(s: Seq<u8>, sep: u8)
    ensures
        split_on(s, sep).len() >= 1,
    decreases s.len(),
{
    if s.len() > 0 {
        lemma_split_nonempty(s.drop_last(), sep);
    }
}

/// Text without separators extends the last piece.
pub proof fn lemma_split_extend(t: Seq<u8>, u: Seq<u8>, sep: u8)
    requires
        forall|i: int| 0 <= i < u.len() ==> u[i] != sep,
    ensures
        split_on(t + u, sep) == split_on(t, sep).update(
            split_on(t, sep).len() - 1,
            split_on(t, sep).last() + u,
        ),
    decreases u.len(),
{
    lemma_split_nonempty(t, sep);
    if u.len() == 0 {
        assert(t + u =~= t);
        assert(split_on(t, sep).last() + u =~= split_on(t, sep).last());
        assert(split_on(t, sep).update(split_on(t, sep).len() - 1, split_on(t, sep).last()) =~= split_on(t, sep));
    } else {
        let u0 = u.drop_last();
        lemma_split_extend(t, u0, sep);
        assert((t + u).drop_last() =~= t + u0);
        assert((t + u).last() == u.last());
        lemma_split_nonempty(t + u0, sep);
        let r = split_on(t + u0, sep);
        assert(r.last() == split_on(t, sep).last() + u0);
        assert(r.last().push(u.last()) =~= split_on(t, sep).last() + u);
        assert(split_on(t + u, sep) =~= split_on(t, sep).update(
            split_on(t, sep).len() - 1,
            split_on(t, sep).last() + u,
        ));
    }
}

/// The digits of a number: non-empty, digits only, denoting the number.
pub proof fn lemma_dec_nat(n: nat)
    ensures
        dec_nat(n).len() >= 1,
        all_digits(dec_nat(n)),
        digits_value(dec_nat(n)) == n,
    decreases n,
{
    if n >= 10 {
        lemma_dec_nat(n / 10);
        let s = dec_nat(n);
        assert(s.drop_last() =~= dec_nat(n / 10));
        assert(s.last() == (48 + n % 10) as u8);
        assert(n % 10 < 10);
        assert((s.last() - 48) as nat == n % 10);
        assert((n / 10) * 10 + n % 10 == n) by (nonlinear_arith);
        assert(digits_value(s) == digits_value(s.drop_last()) * 10 + (s.last() - 48) as nat);
    } else {
        let s = dec_nat(n);
        assert(s.drop_last() =~= Seq::<u8>::empty());
        assert(digits_value(s) == digits_value(s.drop_last()) * 10 + (s.last() - 48) as nat);
    }
}

/// A number printed in decimal parses back to itself.
pub proof fn lemma_parse_dec_u32(n: u32)
    ensures
        parse_u32_spec(dec_nat(n as nat)) == Some(n),
{
    lemma_dec_nat(n as nat);
}

/// An integer printed in decimal parses back to itself.
pub proof fn lemma_parse_dec_i32(v: i32)
    ensures
        parse_i32_spec(dec_int(v as int)) == Some(v),
{
    if v < 0 {
        lemma_dec_nat((-v) as nat);
        let s = dec_int(v as int);
        assert(s.subrange(1, s.len() as int) =~= dec_nat((-v) as nat));
    } else {
        lemma_dec_nat(v as nat);
    }
}

/// Appends the decimal digits of `n`.
pub fn push_decimal(out: &mut Vec<u8>, n: u32)
    ensures
        final(out)@ == old(out)@ + dec_nat(n as nat),
    decreases n,
{
    if n >= 10 {
        push_decimal(out, n / 10);
    }
    out.push((48 + n % 10) as u8);
    proof {
        if n >= 10 {
            assert(dec_nat(n as nat) == dec_nat((n / 10) as nat).push((48 + n % 10) as u8));
        }
    }
    assert(out@ =~= old(out)@ + dec_nat(n as nat));
}

/// Appends the decimal text of `v`, with a `-` when it is negative.
pub fn push_decimal_i32(out: &mut Vec<u8>, v: i32)
    ensures
        final(out)@ == old(out)@ + dec_int(v as int),
{
    if v < 0 {
        out.push(45u8);
        let n: u32 = (-(v as i64)) as u32;
        push_decimal(out, n);
        assert(out@ =~= old(out)@ + dec_int(v as int));
    } else {
        push_decimal(out, v as u32);
    }
}

/// Value of the digits `s[start..end]`, or nothing when one of them is not a
/// digit or the value does not fit in `u32`.
fn parse_digits(s: &Vec<u8>, start: usize, end: usize) -> (r: Option<u32>)
    requires
        start <= end <= s@.len(),
    ensures
        ({
            let d = s@.subrange(start as int, end as int);
            r == if all_digits(d) && digits_value(d) <= u32::MAX {
                Some(digits_value(d) as u32)
            } else {
                None::<u32>
            }
        }),
{
    let mut value: u64 = 0;
    let mut i = start;
    let mut fits = true;
    while i < end
        invariant
            start <= i <= end <= s@.len(),
            all_digits(s@.subrange(start as int, i as int)),
            fits ==> value == digits_value(s@.subrange(start as int, i as int)),
            fits == (digits_value(s@.subrange(start as int, i as int)) <= u32::MAX),
        decreases end - i,
    {
        let c = s[i];
        if c < 48 || c > 57 {
            assert(!all_digits(s@.subrange(start as int, end as int))) by {
                assert(s@.subrange(start as int, end as int)[i - start] == c);
            }
            return None;
        }
        let ghost prev = s@.subrange(start as int, i as int);
        assert(s@.subrange(start as int, i + 1).drop_last() =~= prev);
        assert(s@.subrange(start as int, i + 1).last() == c);
        if fits {
            value = value * 10 + (c - 48) as u64;
            if value > 4294967295 {
                fits = false;
            }
        } else {
            proof {
                assert(digits_value(prev) > u32::MAX);
                assert(digits_value(s@.subrange(start as int, i + 1)) >= digits_value(prev) * 10);
            }
        }
        assert(all_digits(s@.subrange(start as int, i + 1)));
        i += 1;
    }
    if fits {
        Some(value as u32)
    } else {
        None
    }
}

/// Parses `s[start..end]` as `str::parse::<u32>` does.
pub fn parse_u32_field(s: &Vec<u8>, start: usize, end: usize) -> (r: Option<u32>)
    requires
        start <= end <= s@.len(),
    ensures
        r == parse_u32_spec(s@.subrange(start as int, end as int)),
{
    let ghost f = s@.subrange(start as int, end as int);
    if start < end && s[start] == 43u8 {
        assert(f.subrange(1, f.len() as int) =~= s@.subrange(start + 1, end as int));
        if start + 1 == end {
            return None;
        }
        parse_digits(s, start + 1, end)
    } else {
        if start == end {
            return None;
        }
        parse_digits(s, start, end)
    }
}

/// Parses `s[start..end]` as `str::parse::<i32>` does.
pub fn parse_i32_field(s: &Vec<u8>, start: usize, end: usize) -> (r: Option<i32>)
    requires
        start <= end <= s@.len(),
    ensures
        r == parse_i32_spec(s@.subrange(start as int, end as int)),
{
    let ghost f = s@.subrange(start as int, end as int);
    let signed = start < end && (s[start] == 43u8 || s[start] == 45u8);
    let neg = start < end && s[start] == 45u8;
    let digits_start = if signed { start + 1 } else { start };
    assert(signed ==> f.subrange(1, f.len() as int) =~= s@.subrange(digits_start as int, end as int));
    assert(!signed ==> f =~= s@.subrange(digits_start as int, end as int));
    if digits_start == end {
        return None;
    }
    match parse_digits(s, digits_start, end) {
        None => {
            assert(!all_digits(s@.subrange(digits_start as int, end as int)) || digits_value(
                s@.subrange(digits_start as int, end as int),
            ) > u32::MAX);
            None
        },
        Some(d) => {
            if neg {
                if d <= 2147483648 {
                    Some((-(d as i64)) as i32)
                } else {
                    None
                }
            } else {
                if d <= 2147483647 {
                    Some(d as i32)
                } else {
                    None
                }
            }
        },
    }
}

/// The pieces `s[start..end]` is cut into at the separators `sep`, as ranges
/// of `s`.
fn split_ranges(s: &Vec<u8>, start: usize, end: usize, sep: u8) -> (r: Vec<(usize, usize)>)
    requires
        start <= end <= s@.len(),
    ensures
        r@.len() == split_on(s@.subrange(start as int, end as int), sep).len(),
        forall|k: int| 0 <= k < r@.len() ==> {
            &&& start <= (#[trigger] r@[k]).0 <= r@[k].1 <= end
            &&& s@.subrange(r@[k].0 as int, r@[k].1 as int) == split_on(s@.subrange(start as int, end as int), sep)[k]
        },
{
    let mut pieces: Vec<(usize, usize)> = Vec::new();
    let mut cur = start;
    let mut i = start;
    while i < end
        invariant
            start <= cur <= i <= end <= s@.len(),
            ({
                let sp = split_on(s@.subrange(start as int, i as int), sep);
                &&& pieces@.len() + 1 == sp.len()
                &&& s@.subrange(cur as int, i as int) == sp.last()
                &&& forall|k: int| 0 <= k < pieces@.len() ==> {
                    &&& start <= (#[trigger] pieces@[k]).0 <= pieces@[k].1 <= i
                    &&& s@.subrange(pieces@[k].0 as int, pieces@[k].1 as int) == sp[k]
                }
            }),
        decreases end - i,
    {
        let ghost prev = s@.subrange(start as int, i as int);
        let ghost next = s@.subrange(start as int, i + 1);
        assert(next.drop_last() =~= prev);
        assert(next.last() == s@[i as int]);
        proof { lemma_split_nonempty(prev, sep); }
        if s[i] == sep {
            pieces.push((cur, i));
            cur = i + 1;
            assert(s@.subrange(cur as int, i + 1) =~= Seq::<u8>::empty());
        } else {
            assert(s@.subrange(cur as int, i + 1) =~= s@.subrange(cur as int, i as int).push(s@[i as int]));
        }
        i += 1;
    }
    pieces.push((cur, end));
    pieces
}

/// Why the contents of a chunk file could not be read back. Only a field that
/// is not a number makes loading fail with an error; the other kinds stop the
/// program.
#[derive(Clone, Copy, Debug, PartialEq, Eq, Structural)]
pub enum LoadError {
    /// A field is not a decimal number of the expected type.
    ParseInt,
    /// A line has fewer than four fields.
    MissingField,
    /// A block id names no kind of block.
    InvalidId,
    /// A block lies outside the chunk's columns, or out of range of the
    /// world's coordinates.
    OutOfBounds,
}

/// The four numbers of a saved block line `x,y,z,id`, read as loading reads
/// them: field by field, the first bad field deciding the error.
pub open spec fn parse_line_spec(line: Seq<u8>) -> Result<(u32, u32, u32, u32), LoadError> {
    let f = split_on(line, 44u8);
    match parse_u32_spec(f[0]) {
        None => Err(LoadError::ParseInt),
        Some(bx) => if f.len() < 2 {
            Err(LoadError::MissingField)
        } else {
            match parse_u32_spec(f[1]) {
                None => Err(LoadError::ParseInt),
                Some(by) => if f.len() < 3 {
                    Err(LoadError::MissingField)
                } else {
                    match parse_u32_spec(f[2]) {
                        None => Err(LoadError::ParseInt),
                        Some(bz) => if f.len() < 4 {
                            Err(LoadError::MissingField)
                        } else {
                            match parse_u32_spec(f[3]) {
                                None => Err(LoadError::ParseInt),
                                Some(id) => Ok((bx, by, bz, id)),
                            }
                        },
                    }
                },
            }
        },
    }
}

/// The columns once the block of a read line is placed: the line names the
/// block's position inside chunk `key` and its kind.
pub open spec fn apply_line(key: (i32, i32), cols: Seq<Seq<Option<Block>>>, v: (u32, u32, u32, u32)) -> Result<Seq<Seq<Option<Block>>>, LoadError> {
    let (bx, by, bz, id) = v;
    let c = bx * 16 + bz;
    if id > 6 {
        Err(LoadError::InvalidId)
    } else if c >= cols.len() || by > i32::MAX || !(i32::MIN <= key.0 * 16 + bx <= i32::MAX) || !(i32::MIN <= key.1 * 16 + bz <= i32::MAX) || !(i32::MIN <= key.0 * 16) || !(i32::MIN <= key.1 * 16) {
        Err(LoadError::OutOfBounds)
    } else {
        let b = block_at_spec(BlockPos { x: bx as i32, y: by as i32, z: bz as i32 }, key, block_type_of_id(id));
        Ok(cols.update(c, put_cell(cols[c], by as int, Some(b))))
    }
}

/// Loading the given lines, one after the other, into the given columns.
pub open spec fn load_lines(key: (i32, i32), start: Seq<Seq<Option<Block>>>, lines: Seq<Seq<u8>>) -> Result<Seq<Seq<Option<Block>>>, LoadError>
    decreases lines.len(),
{
    if lines.len() == 0 {
        Ok(start)
    } else {
        match load_lines(key, start, lines.drop_last()) {
            Err(e) => Err(e),
            Ok(cols) => match parse_line_spec(lines.last()) {
                Err(e) => Err(e),
                Ok(v) => apply_line(key, cols, v),
            },
        }
    }
}

/// The 256 empty columns that loading starts from.
pub open spec fn empty_columns() -> Seq<Seq<Option<Block>>> {
    Seq::new(256, |i: int| Seq::<Option<Block>>::empty())
}

/// The columns that loading the text of a saved chunk gives.
pub open spec fn load_text(key: (i32, i32), text: Seq<u8>) -> Result<Seq<Seq<Option<Block>>>, LoadError> {
    load_lines(key, empty_columns(), text_lines(text))
}

/// Reads one saved block line.
fn parse_line(s: &Vec<u8>, start: usize, end: usize) -> (r: Result<(u32, u32, u32, u32), LoadError>)
    requires
        start <= end <= s@.len(),
    ensures
        r == parse_line_spec(s@.subrange(start as int, end as int)),
{
    let fields = split_ranges(s, start, end, 44u8);
    proof { lemma_split_nonempty(s@.subrange(start as int, end as int), 44u8); }
    let bx = match parse_u32_field(s, fields[0].0, fields[0].1) {
        Some(v) => v,
        None => return Err(LoadError::ParseInt),
    };
    if fields.len() < 2 {
        return Err(LoadError::MissingField);
    }
    let by = match parse_u32_field(s, fields[1].0, fields[1].1) {
        Some(v) => v,
        None => return Err(LoadError::ParseInt),
    };
    if fields.len() < 3 {
        return Err(LoadError::MissingField);
    }
    let bz = match parse_u32_field(s, fields[2].0, fields[2].1) {
        Some(v) => v,
        None => return Err(LoadError::ParseInt),
    };
    if fields.len() < 4 {
        return Err(LoadError::MissingField);
    }
    let id = match parse_u32_field(s, fields[3].0, fields[3].1) {
        Some(v) => v,
        None => return Err(LoadError::ParseInt),
    };
    Ok((bx, by, bz, id))
}

/// Places the block of a read line into the columns.
fn apply_block_line(key: (i32, i32), blocks: &mut Vec<Column>, v: (u32, u32, u32, u32)) -> (r: Result<(), LoadError>)
    requires
        old(blocks)@.len() == 256,
    ensures
        match apply_line(key, columns_view(old(blocks)@), v) {
            Ok(cols) => r is Ok && columns_view(final(blocks)@) == cols,
            Err(e) => r == Err::<(), LoadError>(e),
        },
        final(blocks)@.len() == old(blocks)@.len(),
{
    let (bx, by, bz, id) = v;
    if id > 6 {
        return Err(LoadError::InvalidId);
    }
    let c: u64 = bx as u64 * 16 + bz as u64;
    if c >= blocks.len() as u64 || by > 2147483647 {
        return Err(LoadError::OutOfBounds);
    }
    let x: i64 = key.0 as i64 * 16 + bx as i64;
    let z: i64 = key.1 as i64 * 16 + bz as i64;
    if x < -2147483648 || x > 2147483647 || z < -2147483648 || z > 2147483647 || (key.0 as i64) * 16 < -2147483648 || (key.1 as i64) * 16 < -2147483648 {
        return Err(LoadError::OutOfBounds);
    }
    let block_type = BlockType::from_id(id);
    assert(bx < 16 && bz < 256);
    let block = Block::new(BlockPos { x: bx as i32, y: by as i32, z: bz as i32 }, key, block_type);
    let c = c as usize;
    let y = by as usize;
    let ghost old_cols = columns_view(blocks@);
    let mut col: Column = Vec::new();
    std::mem::swap(&mut col, &mut blocks[c]);
    let ghost old_col = col@;
    if y >= col.len() {
        col.resize(y + 1, None);
        assert(col@ =~= old_col + Seq::new((y + 1 - old_col.len()) as nat, |i: int| None::<Block>));
    }
    col.set(y, Some(block));
    blocks.set(c, col);
    assert(columns_view(blocks@) =~= old_cols.update(c as int, put_cell(old_cols[c as int], y as int, Some(block))));
    Ok(())
}

/// The columns of 256 empty columns.
fn empty_blocks() -> (r: Vec<Column>)
    ensures
        columns_view(r@) == empty_columns(),
        r@.len() == 256,
{
    let mut blocks: Vec<Column> = Vec::new();
    let mut i: usize = 0;
    while i < 256
        invariant
            i <= 256,
            blocks@.len() == i,
            forall|j: int| 0 <= j < i ==> (#[trigger] blocks@[j])@.len() == 0,
        decreases 256 - i,
    {
        blocks.push(Vec::new());
        i += 1;
    }
    assert forall|j: int| 0 <= j < 256 implies columns_view(blocks@)[j] == empty_columns()[j] by {
        assert(blocks@[j]@ =~= Seq::<Option<Block>>::empty());
    }
    assert(columns_view(blocks@) =~= empty_columns());
    blocks
}

/// Loads the columns that one more line adds, or the error it stops at.
proof fn lemma_load_step(key: (i32, i32), start: Seq<Seq<Option<Block>>>, lines: Seq<Seq<u8>>, line: Seq<u8>)
    ensures
        load_lines(key, start, lines.push(line)) == match load_lines(key, start, lines) {
            Err(e) => Err(e),
            Ok(cols) => match parse_line_spec(line) {
                Err(e) => Err(e),
                Ok(v) => apply_line(key, cols, v),
            },
        },
{
    assert(lines.push(line).drop_last() =~= lines);
}

/// An error while loading the first lines is the error of loading them all.
proof fn lemma_load_prefix_err(key: (i32, i32), start: Seq<Seq<Option<Block>>>, lines: Seq<Seq<u8>>, n: int)
    requires
        0 <= n <= lines.len(),
        load_lines(key, start, lines.take(n)) is Err,
    ensures
        load_lines(key, start, lines) == load_lines(key, start, lines.take(n)),
    decreases lines.len() - n,
{
    if n < lines.len() {
        let l = lines.drop_last();
        assert(l.take(n) =~= lines.take(n));
        lemma_load_prefix_err(key, start, l, n);
        assert(lines.drop_last() =~= l);
    } else {
        assert(lines.take(n) =~= lines);
    }
}

/// Reads back the text of a saved chunk at `key`: the columns, or why the text
/// cannot be read.
fn parse_chunk_data(key: (i32, i32), text: &Vec<u8>) -> (r: Result<Vec<Column>, LoadError>)
    ensures
        match load_text(key, text@) {
            Ok(cols) => r is Ok && columns_view(r->Ok_0@) == cols && r->Ok_0@.len() == 256,
            Err(e) => r == Err::<Vec<Column>, LoadError>(e),
        },
{
    let ghost segs = split_on(text@, 10u8);
    let pieces = split_ranges(text, 0, text.len(), 10u8);
    assert(text@.subrange(0, text@.len() as int) =~= text@);
    proof { lemma_split_nonempty(text@, 10u8); }
    let mut blocks = empty_blocks();
    let mut k: usize = 0;
    let last = pieces.len() - 1;
    while k < last
        invariant
            k <= last,
            last + 1 == pieces@.len(),
            pieces@.len() == segs.len(),
            segs == split_on(text@, 10u8),
            forall|j: int| 0 <= j < pieces@.len() ==> {
                &&& 0 <= (#[trigger] pieces@[j]).0 <= pieces@[j].1 <= text@.len()
                &&& text@.subrange(pieces@[j].0 as int, pieces@[j].1 as int) == segs[j]
            },
            blocks@.len() == 256,
            load_lines(key, empty_columns(), segs.take(k as int).map_values(|l: Seq<u8>| strip_cr(l)))
                == Ok::<Seq<Seq<Option<Block>>>, LoadError>(columns_view(blocks@)),
        decreases last - k,
    {
        let (a, b) = pieces[k];
        let b2 = if b > a && text[b - 1] == 13u8 { b - 1 } else { b };
        let ghost line = strip_cr(segs[k as int]);
        assert(text@.subrange(a as int, b2 as int) == line) by {
            if b > a && text@[b - 1] == 13u8 {
                assert(text@.subrange(a as int, b2 as int) =~= segs[k as int].drop_last());
            }
        }
        assert(segs.take(k + 1).map_values(|l: Seq<u8>| strip_cr(l)) =~= segs.take(k as int).map_values(|l: Seq<u8>| strip_cr(l)).push(line));
        proof { lemma_load_step(key, empty_columns(), segs.take(k as int).map_values(|l: Seq<u8>| strip_cr(l)), line); }
        let v = parse_line(text, a, b2);
        proof {
            let tl = text_lines(text@);
            assert(tl.take(k + 1) =~= segs.take(k + 1).map_values(|l: Seq<u8>| strip_cr(l)));
        }
        match v {
            Err(e) => {
                proof { lemma_load_prefix_err(key, empty_columns(), text_lines(text@), k + 1); }
                return Err(e);
            },
            Ok(v) => {
                match apply_block_line(key, &mut blocks, v) {
                    Err(e) => {
                        proof { lemma_load_prefix_err(key, empty_columns(), text_lines(text@), k + 1); }
                        return Err(e);
                    },
                    Ok(()) => {},
                }
            },
        }
        k += 1;
    }
    let ghost done = segs.drop_last().map_values(|l: Seq<u8>| strip_cr(l));
    assert(segs.take(last as int) =~= segs.drop_last());
    let (a, b) = pieces[last];
    assert(text@.subrange(a as int, b as int) == segs.last());
    if a < b {
        proof { lemma_load_step(key, empty_columns(), done, segs.last()); }
        assert(text_lines(text@) == done.push(segs.last()));
        match parse_line(text, a, b) {
            Err(e) => return Err(e),
            Ok(v) => {
                match apply_block_line(key, &mut blocks, v) {
                    Err(e) => return Err(e),
                    Ok(()) => {},
                }
            },
        }
    } else {
        assert(text_lines(text@) == done);
    }
    Ok(blocks)
}

/// The saved line of a block: `x,y,z,id` and a newline, the position taken
/// inside the chunk.
pub open spec fn block_line(b: Block) -> Seq<u8> {
    line_body(b) + seq![10u8]
}

pub open spec fn line_body(b: Block) -> Seq<u8> {
    dec_int(b.position.x as int) + seq![44u8] + dec_int(b.position.y as int) + seq![44u8] + dec_int(
        b.position.z as int,
    ) + seq![44u8] + dec_nat(block_type_id(b.block_type) as nat)
}

pub open spec fn cell_text(cell: Option<Block>) -> Seq<u8> {
    match cell {
        Some(b) => block_line(b),
        None => seq![],
    }
}

/// Text of the first `n` cells of a column.
pub open spec fn column_text(col: Seq<Option<Block>>, n: int) -> Seq<u8>
    decreases n,
{
    if n <= 0 {
        seq![]
    } else {
        column_text(col, n - 1) + cell_text(col[n - 1])
    }
}

/// Text of the first `n` columns.
pub open spec fn columns_text(cols: Seq<Seq<Option<Block>>>, n: int) -> Seq<u8>
    decreases n,
{
    if n <= 0 {
        seq![]
    } else {
        columns_text(cols, n - 1) + column_text(cols[n - 1], cols[n - 1].len() as int)
    }
}

/// What saving a chunk writes: one line per block, column after column,
/// each column bottom up.
pub open spec fn saved_text(cols: Seq<Seq<Option<Block>>>) -> Seq<u8> {
    columns_text(cols, cols.len() as int)
}

/// A column without its empty cells on top.
pub open spec fn trim(col: Seq<Option<Block>>) -> Seq<Option<Block>>
    decreases col.len(),
{
    if col.len() == 0 {
        col
    } else if col.last() is None {
        trim(col.drop_last())
    } else {
        col
    }
}

/// Something whose state is kept on disk as text.
pub trait Saveable<T> {
    /// The text that saving writes.
    fn save(&self) -> Vec<u8>;
}

/// Something read back from the text it was saved as.
pub trait Loadable<T> {
    /// Reads the saved text back; `key` names what the text belongs to.
    fn load(key: (i32, i32), data: &Vec<u8>) -> Result<T, LoadError>;
}

impl Saveable<Chunk> for Chunk {
    /// The text that saving this chunk writes.
    fn save(&self) -> (r: Vec<u8>)
        ensures
            r@ == saved_text(self.columns()),
    {
        let mut data: Vec<u8> = Vec::new();
        let mut c: usize = 0;
        while c < self.blocks.len()
            invariant
                c <= self.blocks@.len(),
                data@ == columns_text(self.columns(), c as int),
            decreases self.blocks@.len() - c,
        {
            let col = &self.blocks[c];
            let ghost before = data@;
            let mut y: usize = 0;
            while y < col.len()
                invariant
                    y <= col@.len(),
                    col@ == self.columns()[c as int],
                    data@ == before + column_text(col@, y as int),
                decreases col@.len() - y,
            {
                match col[y] {
                    Some(b) => {
                        let ghost d0 = data@;
                        push_decimal_i32(&mut data, b.position.x);
                        data.push(44u8);
                        push_decimal_i32(&mut data, b.position.y);
                        data.push(44u8);
                        push_decimal_i32(&mut data, b.position.z);
                        data.push(44u8);
                        push_decimal(&mut data, b.block_type.to_id());
                        data.push(10u8);
                        assert(data@ =~= d0 + block_line(b));
                    },
                    None => {},
                }
                assert(data@ =~= before + column_text(col@, y + 1));
                y += 1;
            }
            assert(columns_text(self.columns(), c + 1) == columns_text(self.columns(), c as int) + column_text(self.columns()[c as int], self.columns()[c as int].len() as int));
            c += 1;
        }
        data
    }
}

/// Lines joined, each followed by a newline.
pub open spec fn join_lines(ls: Seq<Seq<u8>>) -> Seq<u8>
    decreases ls.len(),
{
    if ls.len() == 0 {
        seq![]
    } else {
        join_lines(ls.drop_last()) + ls.last() + seq![10u8]
    }
}

pub open spec fn cell_lines(cell: Option<Block>) -> Seq<Seq<u8>> {
    match cell {
        Some(b) => seq![line_body(b)],
        None => seq![],
    }
}

pub open spec fn column_lines(col: Seq<Option<Block>>, n: int) -> Seq<Seq<u8>>
    decreases n,
{
    if n <= 0 {
        seq![]
    } else {
        column_lines(col, n - 1) + cell_lines(col[n - 1])
    }
}

pub open spec fn columns_lines(cols: Seq<Seq<Option<Block>>>, n: int) -> Seq<Seq<u8>>
    decreases n,
{
    if n <= 0 {
        seq![]
    } else {
        columns_lines(cols, n - 1) + column_lines(cols[n - 1], cols[n - 1].len() as int)
    }
}

/// A line holding no newline and not ending in a carriage return.
pub open spec fn plain_line(l: Seq<u8>) -> bool {
    &&& forall|i: int| 0 <= i < l.len() ==> #[trigger] l[i] != 10u8
    &&& l.len() > 0 && l.last() != 13u8
}

/// Every cell of a column holds a block saved at its own place of chunk
/// `key`, as in a consistent chunk.
pub open spec fn column_ok(col: Seq<Option<Block>>, key: (i32, i32), c: int) -> bool {
    forall|y: int| 0 <= y < col.len() && #[trigger] col[y] is Some ==> {
        let b = col[y]->0;
        &&& y <= i32::MAX
        &&& crate::blocks::block::block_fits(cell_position(c, y), key)
        &&& b == block_at_spec(cell_position(c, y), key, b.block_type)
    }
}

proof fn lemma_join_concat(a: Seq<Seq<u8>>, b: Seq<Seq<u8>>)
    ensures
        join_lines(a + b) == join_lines(a) + join_lines(b),
    decreases b.len(),
{
    if b.len() == 0 {
        assert(a + b =~= a);
        assert(join_lines(a) + join_lines(b) =~= join_lines(a));
    } else {
        lemma_join_concat(a, b.drop_last());
        assert((a + b).drop_last() =~= a + b.drop_last());
        assert((a + b).last() == b.last());
        assert(join_lines(a + b) =~= join_lines(a) + join_lines(b));
    }
}

proof fn lemma_column_text(col: Seq<Option<Block>>, n: int)
    ensures
        column_text(col, n) == join_lines(column_lines(col, n)),
    decreases n,
{
    if n > 0 {
        lemma_column_text(col, n - 1);
        lemma_join_concat(column_lines(col, n - 1), cell_lines(col[n - 1]));
        match col[n - 1] {
            Some(b) => {
                assert(seq![line_body(b)].drop_last() =~= Seq::<Seq<u8>>::empty());
                assert(join_lines(Seq::<Seq<u8>>::empty()) == Seq::<u8>::empty());
                assert(join_lines(seq![line_body(b)]) == join_lines(Seq::<Seq<u8>>::empty()) + line_body(b) + seq![10u8]);
                assert(join_lines(seq![line_body(b)]) =~= block_line(b));
            },
            None => {},
        }
    }
}

proof fn lemma_columns_text(cols: Seq<Seq<Option<Block>>>, n: int)
    ensures
        columns_text(cols, n) == join_lines(columns_lines(cols, n)),
    decreases n,
{
    if n > 0 {
        lemma_columns_text(cols, n - 1);
        lemma_column_text(cols[n - 1], cols[n - 1].len() as int);
        lemma_join_concat(columns_lines(cols, n - 1), column_lines(cols[n - 1], cols[n - 1].len() as int));
    }
}

proof fn lemma_split_push_sep(t: Seq<u8>, sep: u8)
    ensures
        split_on(t.push(sep), sep) == split_on(t, sep).push(seq![]),
{
    assert(t.push(sep).drop_last() =~= t);
}

proof fn lemma_split_join(ls: Seq<Seq<u8>>)
    requires
        forall|k: int| 0 <= k < ls.len() ==> plain_line(#[trigger] ls[k]),
    ensures
        split_on(join_lines(ls), 10u8) == ls.push(seq![]),
    decreases ls.len(),
{
    if ls.len() == 0 {
        assert(split_on(Seq::<u8>::empty(), 10u8) =~= seq![Seq::<u8>::empty()]);
        assert(ls.push(seq![]) =~= seq![Seq::<u8>::empty()]);
    } else {
        let d = ls.drop_last();
        lemma_split_join(d);
        let l = ls.last();
        assert(plain_line(ls[ls.len() - 1]));
        lemma_split_extend(join_lines(d), l, 10u8);
        assert(Seq::<u8>::empty() + l =~= l);
        assert(split_on(join_lines(d) + l, 10u8) =~= d.push(l));
        assert(join_lines(ls) =~= (join_lines(d) + l).push(10u8));
        lemma_split_push_sep(join_lines(d) + l, 10u8);
        assert(d.push(l) =~= ls);
    }
}

proof fn lemma_text_lines_join(ls: Seq<Seq<u8>>)
    requires
        forall|k: int| 0 <= k < ls.len() ==> plain_line(#[trigger] ls[k]),
    ensures
        text_lines(join_lines(ls)) == ls,
{
    lemma_split_join(ls);
    let segs = ls.push(seq![]);
    assert(segs.drop_last() =~= ls);
    assert(segs.drop_last().map_values(|l: Seq<u8>| strip_cr(l)) =~= ls) by {
        assert forall|k: int| 0 <= k < ls.len() implies strip_cr(ls[k]) == ls[k] by {
            assert(plain_line(ls[k]));
        }
    }
}

/// The decimal digits of a number are all digits, the last one included.
proof fn lemma_digits_plain(n: nat)
    ensures
        forall|i: int| 0 <= i < dec_nat(n).len() ==> is_digit(#[trigger] dec_nat(n)[i]),
        dec_nat(n).len() >= 1,
{
    lemma_dec_nat(n);
}

/// The saved line of a block at a non-negative position reads back as its
/// position and kind.
proof fn lemma_parse_body(b: Block)
    requires
        b.position.x >= 0,
        b.position.y >= 0,
        b.position.z >= 0,
    ensures
        parse_line_spec(line_body(b)) == Ok::<(u32, u32, u32, u32), LoadError>(
            (b.position.x as u32, b.position.y as u32, b.position.z as u32, block_type_id(b.block_type)),
        ),
        plain_line(line_body(b)),
{
    let d1 = dec_nat(b.position.x as nat);
    let d2 = dec_nat(b.position.y as nat);
    let d3 = dec_nat(b.position.z as nat);
    let d4 = dec_nat(block_type_id(b.block_type) as nat);
    lemma_digits_plain(b.position.x as nat);
    lemma_digits_plain(b.position.y as nat);
    lemma_digits_plain(b.position.z as nat);
    lemma_digits_plain(block_type_id(b.block_type) as nat);
    let body = line_body(b);
    assert(body =~= d1 + seq![44u8] + d2 + seq![44u8] + d3 + seq![44u8] + d4);
    let e = Seq::<u8>::empty();
    assert(e + d1 =~= d1);
    assert(e + d2 =~= d2);
    assert(e + d3 =~= d3);
    assert(e + d4 =~= d4);
    assert forall|i: int| 0 <= i < d1.len() implies d1[i] != 44u8 by { assert(is_digit(d1[i])); }
    assert forall|i: int| 0 <= i < d2.len() implies d2[i] != 44u8 by { assert(is_digit(d2[i])); }
    assert forall|i: int| 0 <= i < d3.len() implies d3[i] != 44u8 by { assert(is_digit(d3[i])); }
    assert forall|i: int| 0 <= i < d4.len() implies d4[i] != 44u8 by { assert(is_digit(d4[i])); }
    lemma_split_extend(e, d1, 44u8);
    assert(e + d1 == d1);
    assert(split_on(d1, 44u8) =~= seq![d1]);
    lemma_split_push_sep(d1, 44u8);
    let p1 = d1.push(44u8);
    lemma_split_extend(p1, d2, 44u8);
    assert(split_on(p1 + d2, 44u8) =~= seq![d1, d2]);
    lemma_split_push_sep(p1 + d2, 44u8);
    let p2 = (p1 + d2).push(44u8);
    lemma_split_extend(p2, d3, 44u8);
    assert(split_on(p2 + d3, 44u8) =~= seq![d1, d2, d3]);
    lemma_split_push_sep(p2 + d3, 44u8);
    let p3 = (p2 + d3).push(44u8);
    lemma_split_extend(p3, d4, 44u8);
    assert(p3 + d4 =~= body);
    assert(split_on(body, 44u8) =~= seq![d1, d2, d3, d4]);
    lemma_parse_dec_u32(b.position.x as u32);
    lemma_parse_dec_u32(b.position.y as u32);
    lemma_parse_dec_u32(b.position.z as u32);
    lemma_parse_dec_u32(block_type_id(b.block_type));
    assert forall|i: int| 0 <= i < body.len() implies #[trigger] body[i] != 10u8 by {
        if i < d1.len() {
            assert(body[i] == d1[i]);
            assert(is_digit(d1[i]));
        } else if i == d1.len() {
        } else if i < d1.len() + 1 + d2.len() {
            assert(body[i] == d2[i - d1.len() - 1]);
            assert(is_digit(d2[i - d1.len() - 1]));
        } else if i == d1.len() + 1 + d2.len() {
        } else if i < d1.len() + 2 + d2.len() + d3.len() {
            assert(body[i] == d3[i - d1.len() - 2 - d2.len()]);
            assert(is_digit(d3[i - d1.len() - 2 - d2.len()]));
        } else if i == d1.len() + 2 + d2.len() + d3.len() {
        } else {
            assert(body[i] == d4[i - d1.len() - 3 - d2.len() - d3.len()]);
            assert(is_digit(d4[i - d1.len() - 3 - d2.len() - d3.len()]));
        }
    }
    assert(body.last() == d4.last());
    assert(is_digit(d4[d4.len() - 1]));
}

proof fn lemma_load_concat(key: (i32, i32), start: Seq<Seq<Option<Block>>>, a: Seq<Seq<u8>>, b: Seq<Seq<u8>>)
    ensures
        load_lines(key, start, a + b) == match load_lines(key, start, a) {
            Err(e) => Err(e),
            Ok(c) => load_lines(key, c, b),
        },
    decreases b.len(),
{
    if b.len() == 0 {
        assert(a + b =~= a);
    } else {
        lemma_load_concat(key, start, a, b.drop_last());
        assert((a + b).drop_last() =~= a + b.drop_last());
        assert((a + b).last() == b.last());
    }
}

proof fn lemma_trim(s: Seq<Option<Block>>)
    ensures
        trim(s).len() <= s.len(),
        trim(s) == s.take(trim(s).len() as int),
        forall|i: int| trim(s).len() <= i < s.len() ==> #[trigger] s[i] is None,
        trim(s).len() > 0 ==> trim(s).last() is Some,
    decreases s.len(),
{
    if s.len() > 0 {
        if s.last() is None {
            lemma_trim(s.drop_last());
            let t = trim(s.drop_last());
            assert(s.drop_last().take(t.len() as int) =~= s.take(t.len() as int));
        } else {
            assert(s.take(s.len() as int) =~= s);
        }
    } else {
        assert(s.take(0) =~= s);
    }
}

proof fn lemma_put_after_trim(s: Seq<Option<Block>>, b: Block)
    ensures
        put_cell(trim(s), s.len() as int, Some(b)) == s.push(Some(b)),
{
    lemma_trim(s);
    let t = trim(s);
    let r = put_cell(t, s.len() as int, Some(b));
    assert forall|i: int| 0 <= i < s.len() + 1 implies r[i] == s.push(Some(b))[i] by {
        if i < t.len() {
            assert(t[i] == s[i]);
        } else if i < s.len() {
            assert(s[i] is None);
        }
    }
    assert(r =~= s.push(Some(b)));
}

/// Empty columns, then the first `n` columns of `cols` without their empty tops.
pub open spec fn loaded_prefix(cols: Seq<Seq<Option<Block>>>, n: int) -> Seq<Seq<Option<Block>>> {
    Seq::new(256, |j: int| if j < n { trim(cols[j]) } else { Seq::<Option<Block>>::empty() })
}

proof fn lemma_column_load(key: (i32, i32), acc: Seq<Seq<Option<Block>>>, c: int, col: Seq<Option<Block>>, n: int)
    requires
        0 <= c < 256,
        acc.len() == 256,
        acc[c].len() == 0,
        column_ok(col, key, c),
        0 <= n <= col.len(),
    ensures
        load_lines(key, acc, column_lines(col, n)) == Ok::<Seq<Seq<Option<Block>>>, LoadError>(acc.update(c, trim(col.take(n)))),
        forall|k: int| 0 <= k < column_lines(col, n).len() ==> plain_line(#[trigger] column_lines(col, n)[k]),
    decreases n,
{
    if n == 0 {
        assert(col.take(0) =~= Seq::<Option<Block>>::empty());
        assert(trim(col.take(0)) == col.take(0));
        assert(acc[c] =~= Seq::<Option<Block>>::empty());
        assert(acc.update(c, trim(col.take(0))) =~= acc);
    } else {
        lemma_column_load(key, acc, c, col, n - 1);
        let prev = column_lines(col, n - 1);
        let acc1 = acc.update(c, trim(col.take(n - 1)));
        lemma_load_concat(key, acc, prev, cell_lines(col[n - 1]));
        assert(col.take(n).drop_last() =~= col.take(n - 1));
        match col[n - 1] {
            None => {
                assert(cell_lines(col[n - 1]) =~= Seq::<Seq<u8>>::empty());
                assert(prev + cell_lines(col[n - 1]) =~= prev);
                assert(trim(col.take(n)) == trim(col.take(n - 1)));
            },
            Some(b) => {
                let y = n - 1;
                assert(col[y] is Some);
                assert(b == block_at_spec(cell_position(c, y), key, b.block_type));
                assert(0 <= c / 16 < 16 && 0 <= c % 16 < 16 && (c / 16) * 16 + c % 16 == c) by (nonlinear_arith)
                    requires
                        0 <= c < 256,
                ;
                lemma_parse_body(b);
                let one = seq![line_body(b)];
                assert(one.drop_last() =~= Seq::<Seq<u8>>::empty());
                let v = (b.position.x as u32, b.position.y as u32, b.position.z as u32, block_type_id(b.block_type));
                crate::blocks::block_type::lemma_id_roundtrip(b.block_type);
                assert(key.0 * 16 >= i32::MIN && key.1 * 16 >= i32::MIN) by (nonlinear_arith)
                    requires
                        i32::MIN <= key.0 * 16 + c / 16,
                        i32::MIN <= key.1 * 16 + c % 16,
                        0 <= c / 16 < 16,
                        0 <= c % 16 < 16,
                ;
                let bb = block_at_spec(BlockPos { x: v.0 as i32, y: v.1 as i32, z: v.2 as i32 }, key, block_type_of_id(v.3));
                assert(BlockPos { x: v.0 as i32, y: v.1 as i32, z: v.2 as i32 } == cell_position(c, y));
                assert(bb == b);
                assert(v.0 * 16 + v.2 == c);
                assert(one.last() == line_body(b));
                assert(load_lines(key, acc1, one.drop_last()) == Ok::<Seq<Seq<Option<Block>>>, LoadError>(acc1));
                assert(load_lines(key, acc1, one) == apply_line(key, acc1, v));
                assert(acc1[c] == trim(col.take(y)));
                lemma_put_after_trim(col.take(y), b);
                assert(col.take(y).push(Some(b)) =~= col.take(n));
                assert(trim(col.take(n)) == col.take(n));
                assert(acc1.update(c, col.take(n)) =~= acc.update(c, trim(col.take(n))));
            },
        }
        assert forall|k: int| 0 <= k < column_lines(col, n).len() implies plain_line(#[trigger] column_lines(col, n)[k]) by {
            if k < prev.len() {
                assert(column_lines(col, n)[k] == prev[k]);
            } else {
                match col[n - 1] {
                    Some(b) => {
                        assert(b == block_at_spec(cell_position(c, n - 1), key, b.block_type));
                        lemma_parse_body(b);
                    },
                    None => {},
                }
            }
        }
    }
}

proof fn lemma_columns_load(key: (i32, i32), cols: Seq<Seq<Option<Block>>>, n: int)
    requires
        cols.len() == 256,
        forall|c: int| 0 <= c < 256 ==> column_ok(#[trigger] cols[c], key, c),
        0 <= n <= 256,
    ensures
        load_lines(key, empty_columns(), columns_lines(cols, n)) == Ok::<Seq<Seq<Option<Block>>>, LoadError>(loaded_prefix(cols, n)),
        forall|k: int| 0 <= k < columns_lines(cols, n).len() ==> plain_line(#[trigger] columns_lines(cols, n)[k]),
    decreases n,
{
    if n == 0 {
        assert(loaded_prefix(cols, 0) =~= empty_columns());
    } else {
        lemma_columns_load(key, cols, n - 1);
        let col = cols[n - 1];
        let acc = loaded_prefix(cols, n - 1);
        assert(column_ok(cols[n - 1], key, n - 1));
        lemma_column_load(key, acc, n - 1, col, col.len() as int);
        lemma_load_concat(key, empty_columns(), columns_lines(cols, n - 1), column_lines(col, col.len() as int));
        assert(col.take(col.len() as int) =~= col);
        assert(acc.update(n - 1, trim(col)) =~= loaded_prefix(cols, n));
        let prev = columns_lines(cols, n - 1);
        let more = column_lines(col, col.len() as int);
        assert forall|k: int| 0 <= k < columns_lines(cols, n).len() implies plain_line(#[trigger] columns_lines(cols, n)[k]) by {
            if k < prev.len() {
                assert(columns_lines(cols, n)[k] == prev[k]);
            } else {
                assert(columns_lines(cols, n)[k] == more[k - prev.len()]);
            }
        }
    }
}

/// Saving a chunk and loading the saved text back at the chunk's key gives
/// the chunk's columns again, without the empty cells on top of each column.
pub proof fn lemma_save_load_roundtrip(ch: Chunk)
    requires
        ch.consistent(),
    ensures
        load_text((ch.x, ch.y), saved_text(ch.columns()))
            == Ok::<Seq<Seq<Option<Block>>>, LoadError>(ch.columns().map_values(|c: Seq<Option<Block>>| trim(c))),
{
    let cols = ch.columns();
    let key = (ch.x, ch.y);
    assert forall|c: int| 0 <= c < 256 implies column_ok(#[trigger] cols[c], key, c) by {
        assert forall|y: int| 0 <= y < cols[c].len() && #[trigger] cols[c][y] is Some implies {
            let b = cols[c][y]->0;
            &&& y <= i32::MAX
            &&& crate::blocks::block::block_fits(cell_position(c, y), key)
            &&& b == block_at_spec(cell_position(c, y), key, b.block_type)
        } by {
            assert(cols[c][y] is Some);
        }
    }
    lemma_columns_load(key, cols, 256);
    lemma_columns_text(cols, 256);
    lemma_text_lines_join(columns_lines(cols, 256));
    assert(loaded_prefix(cols, 256) =~= cols.map_values(|c: Seq<Option<Block>>| trim(c)));
}

impl Loadable<Vec<Column>> for Chunk {
    /// The columns of the chunk at `key` read back from their saved text.
    fn load(key: (i32, i32), data: &Vec<u8>) -> (r: Result<Vec<Column>, LoadError>)
        ensures
            match load_text(key, data@) {
                Ok(cols) => r is Ok && columns_view(r->Ok_0@) == cols && r->Ok_0@.len() == 256,
                Err(e) => r == Err::<Vec<Column>, LoadError>(e),
            },
    {
        parse_chunk_data(key, data)
    }
}

/// `chunk` in ASCII.
pub open spec fn chunk_prefix() -> Seq<u8> {
    seq![99u8, 104u8, 117u8, 110u8, 107u8]
}

/// Name of the file that chunk `(x, y)` is saved in: `chunk{x}_{y}`.
pub open spec fn chunk_name(x: i32, y: i32) -> Seq<u8> {
    chunk_prefix() + dec_int(x as int) + seq![95u8] + dec_int(y as int)
}

/// The chunk key that loading reads from a file name: the text after the last
/// `k`, cut at `_`, the first two pieces read as `i32`.
pub open spec fn parse_chunk_name_spec(name: Seq<u8>) -> Result<(i32, i32), LoadError> {
    let tail = split_on(name, 107u8).last();
    let f = split_on(tail, 95u8);
    match parse_i32_spec(f[0]) {
        None => Err(LoadError::ParseInt),
        Some(x) => if f.len() < 2 {
            Err(LoadError::MissingField)
        } else {
            match parse_i32_spec(f[1]) {
                None => Err(LoadError::ParseInt),
                Some(y) => Ok((x, y)),
            }
        },
    }
}

/// Name of the file that chunk `(x, y)` is saved in.
pub fn chunk_file_name(x: i32, y: i32) -> (r: Vec<u8>)
    ensures
        r@ == chunk_name(x, y),
{
    let mut name: Vec<u8> = Vec::new();
    name.push(99u8);
    name.push(104u8);
    name.push(117u8);
    name.push(110u8);
    name.push(107u8);
    push_decimal_i32(&mut name, x);
    name.push(95u8);
    push_decimal_i32(&mut name, y);
    assert(name@ =~= chunk_name(x, y));
    name
}

/// The chunk key of a saved chunk's file name.
pub fn parse_chunk_file_name(name: &Vec<u8>) -> (r: Result<(i32, i32), LoadError>)
    ensures
        r == parse_chunk_name_spec(name@),
{
    let pieces = split_ranges(name, 0, name.len(), 107u8);
    assert(name@.subrange(0, name@.len() as int) =~= name@);
    proof { lemma_split_nonempty(name@, 107u8); }
    let (a, b) = pieces[pieces.len() - 1];
    let coords = split_ranges(name, a, b, 95u8);
    proof { lemma_split_nonempty(name@.subrange(a as int, b as int), 95u8); }
    let x = match parse_i32_field(name, coords[0].0, coords[0].1) {
        Some(v) => v,
        None => return Err(LoadError::ParseInt),
    };
    if coords.len() < 2 {
        return Err(LoadError::MissingField);
    }
    let y = match parse_i32_field(name, coords[1].0, coords[1].1) {
        Some(v) => v,
        None => return Err(LoadError::ParseInt),
    };
    Ok((x, y))
}

/// The decimal text of an integer holds digits and at most a leading `-`.
proof fn lemma_dec_int_chars(v: int)
    ensures
        forall|i: int| 0 <= i < dec_int(v).len() ==> #[trigger] dec_int(v)[i] != 95u8 && dec_int(v)[i] != 107u8,
{
    if v < 0 {
        lemma_dec_nat((-v) as nat);
        assert forall|i: int| 0 <= i < dec_int(v).len() implies #[trigger] dec_int(v)[i] != 95u8 && dec_int(v)[i] != 107u8 by {
            if i > 0 {
                assert(dec_int(v)[i] == dec_nat((-v) as nat)[i - 1]);
                assert(is_digit(dec_nat((-v) as nat)[i - 1]));
            }
        }
    } else {
        lemma_dec_nat(v as nat);
        assert forall|i: int| 0 <= i < dec_int(v).len() implies #[trigger] dec_int(v)[i] != 95u8 && dec_int(v)[i] != 107u8 by {
            assert(is_digit(dec_nat(v as nat)[i]));
        }
    }
}

/// The key a chunk is saved under is read back from its file name.
pub proof fn lemma_chunk_name_roundtrip(x: i32, y: i32)
    ensures
        parse_chunk_name_spec(chunk_name(x, y)) == Ok::<(i32, i32), LoadError>((x, y)),
{
    let dx = dec_int(x as int);
    let dy = dec_int(y as int);
    lemma_dec_int_chars(x as int);
    lemma_dec_int_chars(y as int);
    let tail = dx + seq![95u8] + dy;
    let pre = chunk_prefix();
    assert(pre.drop_last() =~= seq![99u8, 104u8, 117u8, 110u8]);
    assert(pre =~= pre.drop_last().push(107u8));
    lemma_split_push_sep(pre.drop_last(), 107u8);
    lemma_split_nonempty(pre.drop_last(), 107u8);
    assert forall|i: int| 0 <= i < tail.len() implies tail[i] != 107u8 by {
        if i < dx.len() {
            assert(tail[i] == dx[i]);
        } else if i > dx.len() {
            assert(tail[i] == dy[i - dx.len() - 1]);
        }
    }
    lemma_split_extend(pre, tail, 107u8);
    assert(chunk_name(x, y) =~= pre + tail);
    assert(split_on(chunk_name(x, y), 107u8).last() =~= Seq::<u8>::empty() + tail);
    assert(Seq::<u8>::empty() + tail =~= tail);
    let e = Seq::<u8>::empty();
    assert(e + dx =~= dx);
    lemma_split_extend(e, dx, 95u8);
    assert(split_on(dx, 95u8) =~= seq![dx]);
    lemma_split_push_sep(dx, 95u8);
    lemma_split_extend(dx.push(95u8), dy, 95u8);
    assert(dx.push(95u8) + dy =~= tail);
    assert(split_on(tail, 95u8) =~= seq![dx, dy]);
    lemma_parse_dec_i32(x);
    lemma_parse_dec_i32(y);
}

} // verus!
