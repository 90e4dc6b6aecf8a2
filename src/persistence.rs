use vstd::prelude::*;
use crate::block::{
    lemma_type_id_round_trip, type_from_id_spec, type_id_spec, Block, BlockPos, BlockType,
    ChunkCoord,
};
use crate::chunk::{
    add_spec, cols_wf, column_of, generated_terrain, in_footprint, slot_in, Chunk,
};
use crate::noise::{NoiseField, MAX_HEIGHT};

verus! {

/// One saved block: relative position and type id, as a line `x,y,z,id` of a chunk file.
#[derive(Clone, Copy, Debug, PartialEq, Eq, Structural)]
pub struct SavedBlock {
    pub x: u32,
    pub y: u32,
    pub z: u32,
    pub type_id: u32,
}

/// Why a chunk could not be loaded from its file.
#[derive(Clone, Copy, Debug, PartialEq, Eq, Structural)]
pub enum LoadError {
    /// No file was found for the chunk.
    NotFound,
    /// The file's text does not follow the format, or a block in it is out of range.
    Malformed,
}

pub open spec fn is_digit(b: u8) -> bool {
    48 <= b <= 57
}

/// Decimal digits of `n`, without leading zeros.
pub open spec fn dec(n: nat) -> Seq<u8>
    decreases n,
{
    if n < 10 {
        seq![(48 + n) as u8]
    } else {
        dec(n / 10).push((48 + n % 10) as u8)
    }
}

/// Value of a sequence of decimal digits.
pub open spec fn dec_value(s: Seq<u8>) -> nat
    decreases s.len(),
{
    if s.len() == 0 {
        0
    } else {
        dec_value(s.drop_last()) * 10 + (s.last() - 48) as nat
    }
}

/// The line of a saved block: `x,y,z,id` and a newline.
pub open spec fn record_line(r: SavedBlock) -> Seq<u8> {
    dec(r.x as nat) + seq![44u8] + dec(r.y as nat) + seq![44u8] + dec(r.z as nat) + seq![44u8]
        + dec(r.type_id as nat) + seq![10u8]
}

/// The text of a chunk file holding `rs`, one line per block.
pub open spec fn encode_records(rs: Seq<SavedBlock>) -> Seq<u8>
    decreases rs.len(),
{
    if rs.len() == 0 {
        seq![]
    } else {
        encode_records(rs.drop_last()) + record_line(rs.last())
    }
}

pub proof fn lemma_dec_digits(n: nat)
    ensures
        dec(n).len() >= 1,
        forall|i: int| 0 <= i < dec(n).len() ==> is_digit(#[trigger] dec(n)[i]),
        dec(n)[0] == 48 ==> n == 0 && dec(n).len() == 1,
        dec_value(dec(n)) == n,
    decreases n,
{
    if n >= 10 {
        lemma_dec_digits(n / 10);
        assert(dec(n).drop_last() =~= dec(n / 10));
        assert(dec(n).last() == (48 + n % 10) as u8);
        assert(dec(n)[0] == dec(n / 10)[0]);
        assert((n / 10) * 10 + n % 10 == n);
        assert(((48 + n % 10) as u8) as int == 48 + n % 10);
        assert(dec_value(dec(n)) == dec_value(dec(n / 10)) * 10 + (n % 10));
    } else {
        assert(((48 + n) as u8) as int == 48 + n);
        assert(dec(n).drop_last() =~= Seq::<u8>::empty());
        assert(dec_value(dec(n).drop_last()) == 0);
        assert(dec_value(dec(n)) == (dec(n).last() - 48) as nat);
    }
}

proof fn lemma_dec_value_positive(s: Seq<u8>)
    requires
        s.len() >= 1,
        forall|i: int| 0 <= i < s.len() ==> is_digit(#[trigger] s[i]),
        s[0] != 48,
    ensures
        dec_value(s) >= 1,
        s.len() >= 2 ==> dec_value(s) >= 10,
    decreases s.len(),
{
    if s.len() >= 2 {
        lemma_dec_value_positive(s.drop_last());
    }
}

/// Canonical digit strings are exactly the decimal forms of their values.
proof fn lemma_canonical_is_dec(s: Seq<u8>)
    requires
        s.len() >= 1,
        forall|i: int| 0 <= i < s.len() ==> is_digit(#[trigger] s[i]),
        s[0] == 48 ==> s.len() == 1,
    ensures
        dec(dec_value(s)) == s,
    decreases s.len(),
{
    if s.len() == 1 {
        assert(s.drop_last() =~= Seq::<u8>::empty());
        assert(dec_value(s.drop_last()) == 0);
        assert(dec_value(s) == (s[0] - 48) as nat);
        assert(((48 + dec_value(s)) as u8) == s[0]);
        assert(dec(dec_value(s)) =~= s);
    } else {
        let p = s.drop_last();
        lemma_canonical_is_dec(p);
        lemma_dec_value_positive(p);
        let v = dec_value(s);
        assert(v / 10 == dec_value(p));
        assert(v % 10 == (s.last() - 48) as nat);
        assert(dec(v) =~= s);
    }
}

proof fn lemma_dec_value_prefix(s: Seq<u8>, k: int)
    requires
        0 <= k <= s.len(),
    ensures
        dec_value(s.take(k)) <= dec_value(s),
    decreases s.len(),
{
    if k < s.len() {
        assert(s.drop_last().take(k) =~= s.take(k));
        lemma_dec_value_prefix(s.drop_last(), k);
    } else {
        assert(s.take(k) =~= s);
    }
}

pub proof fn lemma_encode_append(a: Seq<SavedBlock>, b: Seq<SavedBlock>)
    ensures
        encode_records(a + b) == encode_records(a) + encode_records(b),
    decreases b.len(),
{
    if b.len() == 0 {
        assert(a + b =~= a);
        assert(encode_records(a) + encode_records(b) =~= encode_records(a));
    } else {
        assert((a + b).drop_last() =~= a + b.drop_last());
        lemma_encode_append(a, b.drop_last());
        assert(encode_records(a + b) =~= encode_records(a) + encode_records(b));
    }
}

proof fn lemma_encode_first(rs: Seq<SavedBlock>)
    requires
        rs.len() > 0,
    ensures
        encode_records(rs) == record_line(rs[0]) + encode_records(rs.drop_first()),
{
    let first = seq![rs[0]];
    assert(rs =~= first + rs.drop_first());
    lemma_encode_append(first, rs.drop_first());
    assert(first.drop_last() =~= Seq::<SavedBlock>::empty());
    assert(first.last() == rs[0]);
    assert(encode_records(Seq::<SavedBlock>::empty()) =~= Seq::<u8>::empty());
    assert(encode_records(first) =~= record_line(rs[0]));
}

/// The decimal form of `n` stands at `pos` of `b`, and no digit follows it.
pub open spec fn dec_at(b: Seq<u8>, pos: int, n: u32) -> bool {
    let d = dec(n as nat);
    &&& 0 <= pos
    &&& pos + d.len() <= b.len()
    &&& b.subrange(pos, pos + d.len()) == d
    &&& (pos + d.len() == b.len() || !is_digit(b[pos + d.len()]))
}

/// The line of `rec` stands at `pos` of `b`.
pub open spec fn line_at(b: Seq<u8>, pos: int, rec: SavedBlock) -> bool {
    &&& 0 <= pos
    &&& pos + record_line(rec).len() <= b.len()
    &&& b.subrange(pos, pos + record_line(rec).len()) == record_line(rec)
}

/// Whether `b` is the text of some chunk file.
pub open spec fn is_encoding(b: Seq<u8>) -> bool {
    exists|rs: Seq<SavedBlock>| #[trigger] encode_records(rs) == b
}

proof fn lemma_line_at_parts(b: Seq<u8>, pos: int, rec: SavedBlock)
    requires
        line_at(b, pos, rec),
    ensures
        ({
            let after_x = pos + dec(rec.x as nat).len();
            let after_y = after_x + 1 + dec(rec.y as nat).len();
            let after_z = after_y + 1 + dec(rec.z as nat).len();
            let after_id = after_z + 1 + dec(rec.type_id as nat).len();
            &&& dec_at(b, pos, rec.x)
            &&& b[after_x] == 44
            &&& dec_at(b, after_x + 1, rec.y)
            &&& b[after_y] == 44
            &&& dec_at(b, after_y + 1, rec.z)
            &&& b[after_z] == 44
            &&& dec_at(b, after_z + 1, rec.type_id)
            &&& b[after_id] == 10
            &&& after_id + 1 == pos + record_line(rec).len()
        }),
{
    let dx = dec(rec.x as nat);
    let dy = dec(rec.y as nat);
    let dz = dec(rec.z as nat);
    let di = dec(rec.type_id as nat);
    let line = record_line(rec);
    let after_x = pos + dx.len();
    let after_y = after_x + 1 + dy.len();
    let after_z = after_y + 1 + dz.len();
    let after_id = after_z + 1 + di.len();
    assert forall|i: int| 0 <= i < line.len() implies b[pos + i] == #[trigger] line[i] by {
        assert(b.subrange(pos, pos + line.len())[i] == b[pos + i]);
    }
    assert(b[pos + dx.len()] == line[dx.len() as int]);
    assert(b[after_y] == line[after_y - pos]);
    assert(b[after_z] == line[after_z - pos]);
    assert(b[after_id] == line[after_id - pos]);
    assert(b.subrange(pos, after_x) =~= dx) by {
        assert forall|i: int| 0 <= i < dx.len() implies b.subrange(pos, after_x)[i] == dx[i] by {
            assert(line[i] == dx[i]);
            assert(b[pos + i] == line[i]);
        }
    }
    assert(b.subrange(after_x + 1, after_y) =~= dy) by {
        assert forall|i: int| 0 <= i < dy.len() implies b.subrange(after_x + 1, after_y)[i] == dy[i] by {
            assert(line[after_x + 1 - pos + i] == dy[i]);
            assert(b[pos + (after_x + 1 - pos + i)] == line[after_x + 1 - pos + i]);
        }
    }
    assert(b.subrange(after_y + 1, after_z) =~= dz) by {
        assert forall|i: int| 0 <= i < dz.len() implies b.subrange(after_y + 1, after_z)[i] == dz[i] by {
            assert(line[after_y + 1 - pos + i] == dz[i]);
            assert(b[pos + (after_y + 1 - pos + i)] == line[after_y + 1 - pos + i]);
        }
    }
    assert(b.subrange(after_z + 1, after_id) =~= di) by {
        assert forall|i: int| 0 <= i < di.len() implies b.subrange(after_z + 1, after_id)[i] == di[i] by {
            assert(line[after_z + 1 - pos + i] == di[i]);
            assert(b[pos + (after_z + 1 - pos + i)] == line[after_z + 1 - pos + i]);
        }
    }
}

/// Appends the decimal digits of `n` to `out`.
fn push_dec(out: &mut Vec<u8>, n: u32)
    ensures
        final(out)@ == old(out)@ + dec(n as nat),
    decreases n,
{
    if n < 10 {
        out.push(48 + n as u8);
    } else {
        push_dec(out, n / 10);
        out.push(48 + (n % 10) as u8);
        proof {
            assert(final(out)@ =~= old(out)@ + dec(n as nat));
        }
    }
}

/// Appends the line of `r` to `out`.
pub fn push_record_line(out: &mut Vec<u8>, r: &SavedBlock)
    ensures
        final(out)@ == old(out)@ + record_line(*r),
{
    push_dec(out, r.x);
    out.push(44);
    push_dec(out, r.y);
    out.push(44);
    push_dec(out, r.z);
    out.push(44);
    push_dec(out, r.type_id);
    out.push(10);
    assert(final(out)@ =~= old(out)@ + record_line(*r));
}

/// The text of a chunk file holding `records`.
pub fn encode_blocks(records: &Vec<SavedBlock>) -> (r: Vec<u8>)
    ensures
        r@ == encode_records(records@),
{
    let mut out: Vec<u8> = Vec::new();
    let mut i: usize = 0;
    while i < records.len()
        invariant
            i <= records@.len(),
            out@ == encode_records(records@.take(i as int)),
        decreases records@.len() - i,
    {
        push_record_line(&mut out, &records[i]);
        assert(records@.take(i + 1).drop_last() =~= records@.take(i as int));
        i += 1;
    }
    assert(records@.take(records@.len() as int) =~= records@);
    out
}

/// Reads the decimal number that starts at `pos`: the longest run of digits there. It
/// must be canonical (no leading zero) and fit in `u32`. Returns the number and the
/// position after it.
fn parse_dec(b: &Vec<u8>, pos: usize) -> (r: Option<(u32, usize)>)
    requires
        pos <= b@.len(),
    ensures
        r matches Some((v, e)) ==> pos < e <= b@.len() && b@.subrange(pos as int, e as int) == dec(
            v as nat,
        ) && (e == b@.len() || !is_digit(b@[e as int])),
        forall|n: u32| #[trigger] dec_at(b@, pos as int, n) ==> r == Some(
            (n, (pos + dec(n as nat).len()) as usize),
        ),
{
    let mut i: usize = pos;
    let mut acc: u64 = 0;
    while i < b.len() && 48 <= b[i] && b[i] <= 57
        invariant
            pos <= i <= b@.len(),
            forall|j: int| pos <= j < i ==> is_digit(#[trigger] b@[j]),
            acc == dec_value(b@.subrange(pos as int, i as int)),
            acc <= u32::MAX,
            forall|n: u32|
                #![trigger dec(n as nat)]
                pos + dec(n as nat).len() <= b@.len() && b@.subrange(
                    pos as int,
                    pos + dec(n as nat).len(),
                ) == dec(n as nat) && (pos + dec(n as nat).len() == b@.len() || !is_digit(
                    b@[pos + dec(n as nat).len()],
                )) ==> i <= pos + dec(n as nat).len(),
        decreases b@.len() - i,
    {
        let d = (b[i] - 48) as u64;
        let next = acc * 10 + d;
        assert(b@.subrange(pos as int, i + 1).drop_last() =~= b@.subrange(pos as int, i as int));
        proof {
            assert forall|n: u32|
                #![trigger dec(n as nat)]
                pos + dec(n as nat).len() <= b@.len() && b@.subrange(
                    pos as int,
                    pos + dec(n as nat).len(),
                ) == dec(n as nat) && (pos + dec(n as nat).len() == b@.len() || !is_digit(
                    b@[pos + dec(n as nat).len()],
                )) implies i + 1 <= pos + dec(n as nat).len() && next <= n by {
                let d = dec(n as nat);
                lemma_dec_digits(n as nat);
                assert(i != pos + d.len());
                let k = i + 1 - pos;
                assert(d.take(k) =~= b@.subrange(pos as int, i + 1));
                lemma_dec_value_prefix(d, k);
            }
        }
        if next > u32::MAX as u64 {
            return None;
        }
        acc = next;
        i += 1;
    }
    let len = i - pos;
    let ghost s = b@.subrange(pos as int, i as int);
    proof {
        assert forall|n: u32|
            #![trigger dec(n as nat)]
            pos + dec(n as nat).len() <= b@.len() && b@.subrange(
                pos as int,
                pos + dec(n as nat).len(),
            ) == dec(n as nat) && (pos + dec(n as nat).len() == b@.len() || !is_digit(
                b@[pos + dec(n as nat).len()],
            )) implies i == pos + dec(n as nat).len() && s == dec(n as nat) by {
            let d = dec(n as nat);
            lemma_dec_digits(n as nat);
            if i < pos + d.len() {
                assert(b@[i as int] == d[i - pos]);
                assert(is_digit(d[i - pos]));
            }
        }
    }
    if len == 0 || (len > 1 && b[pos] == 48) {
        proof {
            assert forall|n: u32|
                #![trigger dec(n as nat)]
                pos + dec(n as nat).len() <= b@.len() && b@.subrange(
                    pos as int,
                    pos + dec(n as nat).len(),
                ) == dec(n as nat) && (pos + dec(n as nat).len() == b@.len() || !is_digit(
                    b@[pos + dec(n as nat).len()],
                )) implies false by {
                lemma_dec_digits(n as nat);
                assert(s == dec(n as nat));
                assert(s[0] == b@[pos as int]);
            }
        }
        return None;
    }
    proof {
        assert(s[0] == b@[pos as int]);
        lemma_canonical_is_dec(s);
        assert forall|n: u32|
            #![trigger dec(n as nat)]
            pos + dec(n as nat).len() <= b@.len() && b@.subrange(
                pos as int,
                pos + dec(n as nat).len(),
            ) == dec(n as nat) && (pos + dec(n as nat).len() == b@.len() || !is_digit(
                b@[pos + dec(n as nat).len()],
            )) implies acc == n by {
            lemma_dec_digits(n as nat);
        }
    }
    Some((acc as u32, i))
}

/// Whether `b` holds the byte `c` at `pos`.
fn expect_byte(b: &Vec<u8>, pos: usize, c: u8) -> (r: bool)
    ensures
        r == (pos < b@.len() && b@[pos as int] == c),
{
    pos < b.len() && b[pos] == c
}

/// Reads the line that starts at `pos`: four canonical decimal numbers separated by
/// commas and ended by a newline. Returns the block and the position after the line.
#[verifier::rlimit(80)]
fn parse_line(b: &Vec<u8>, pos: usize) -> (r: Option<(SavedBlock, usize)>)
    requires
        pos <= b@.len(),
    ensures
        r matches Some((rec, e)) ==> pos < e <= b@.len() && b@.subrange(pos as int, e as int)
            == record_line(rec),
        forall|rec: SavedBlock| #[trigger] line_at(b@, pos as int, rec) ==> r == Some(
            (rec, (pos + record_line(rec).len()) as usize),
        ),
{
    let len = b.len();
    proof {
        assert forall|rec: SavedBlock| #[trigger] line_at(b@, pos as int, rec) implies dec_at(b@, pos as int, rec.x) by {
            lemma_line_at_parts(b@, pos as int, rec);
        }
    }
    let (x, after_x) = match parse_dec(b, pos) {
        Some(v) => v,
        None => return None,
    };
    if !expect_byte(b, after_x, 44) {
        proof {
            assert forall|rec: SavedBlock| #[trigger] line_at(b@, pos as int, rec) implies false by {
                lemma_line_at_parts(b@, pos as int, rec);
            }
        }
        return None;
    }
    proof {
        assert forall|rec: SavedBlock| #[trigger] line_at(b@, pos as int, rec) implies dec_at(b@, after_x + 1, rec.y) && rec.x == x by {
            lemma_line_at_parts(b@, pos as int, rec);
        }
    }
    let (y, after_y) = match parse_dec(b, after_x + 1) {
        Some(v) => v,
        None => return None,
    };
    if !expect_byte(b, after_y, 44) {
        proof {
            assert forall|rec: SavedBlock| #[trigger] line_at(b@, pos as int, rec) implies false by {
                lemma_line_at_parts(b@, pos as int, rec);
            }
        }
        return None;
    }
    proof {
        assert forall|rec: SavedBlock| #[trigger] line_at(b@, pos as int, rec) implies dec_at(b@, after_y + 1, rec.z) && rec.y == y by {
            lemma_line_at_parts(b@, pos as int, rec);
        }
    }
    let (z, after_z) = match parse_dec(b, after_y + 1) {
        Some(v) => v,
        None => return None,
    };
    if !expect_byte(b, after_z, 44) {
        proof {
            assert forall|rec: SavedBlock| #[trigger] line_at(b@, pos as int, rec) implies false by {
                lemma_line_at_parts(b@, pos as int, rec);
            }
        }
        return None;
    }
    proof {
        assert forall|rec: SavedBlock| #[trigger] line_at(b@, pos as int, rec) implies dec_at(b@, after_z + 1, rec.type_id) && rec.z == z by {
            lemma_line_at_parts(b@, pos as int, rec);
        }
    }
    let (type_id, after_id) = match parse_dec(b, after_z + 1) {
        Some(v) => v,
        None => return None,
    };
    if !expect_byte(b, after_id, 10) {
        proof {
            assert forall|rec: SavedBlock| #[trigger] line_at(b@, pos as int, rec) implies false by {
                lemma_line_at_parts(b@, pos as int, rec);
            }
        }
        return None;
    }
    let rec = SavedBlock { x, y, z, type_id };
    proof {
        assert(b@.subrange(pos as int, after_id + 1) =~= record_line(rec)) by {
            assert(b@.subrange(pos as int, after_id + 1) =~= b@.subrange(pos as int, after_x as int) + seq![44u8]
                + b@.subrange(after_x + 1, after_y as int) + seq![44u8] + b@.subrange(after_y + 1, after_z as int)
                + seq![44u8] + b@.subrange(after_z + 1, after_id as int) + seq![10u8]);
        }
        assert forall|r2: SavedBlock| #[trigger] line_at(b@, pos as int, r2) implies r2 == rec && after_id + 1
            == pos + record_line(r2).len() by {
            lemma_line_at_parts(b@, pos as int, r2);
        }
    }
    Some((rec, after_id + 1))
}

proof fn lemma_next_line(b: Seq<u8>, pos: int, rs: Seq<SavedBlock>, k: int)
    requires
        0 <= pos < b.len(),
        0 <= k <= rs.len(),
        encode_records(rs.skip(k)) == b.subrange(pos, b.len() as int),
    ensures
        k < rs.len(),
        line_at(b, pos, rs[k]),
        encode_records(rs.skip(k + 1)) == b.subrange(pos + record_line(rs[k]).len(), b.len() as int),
{
    let rest = rs.skip(k);
    if rest.len() == 0 {
        assert(encode_records(rest) =~= Seq::<u8>::empty());
    }
    assert(rest.len() > 0);
    lemma_encode_first(rest);
    let l = record_line(rest[0]);
    let e = encode_records(rest);
    assert(rest[0] == rs[k]);
    assert(e.len() == b.len() - pos);
    assert(e == l + encode_records(rest.drop_first()));
    assert(b.subrange(pos, pos + l.len()) =~= e.subrange(0, l.len() as int));
    assert(e.subrange(0, l.len() as int) =~= l);
    assert(rest.drop_first() =~= rs.skip(k + 1));
    assert(b.subrange(pos + l.len(), b.len() as int) =~= e.subrange(l.len() as int, e.len() as int));
    assert(e.subrange(l.len() as int, e.len() as int) =~= encode_records(rest.drop_first()));
}

/// Reads the text of a chunk file back into its blocks. It succeeds exactly on the texts
/// that `encode_blocks` produces, and then gives back the only blocks whose text it is.
#[verifier::rlimit(60)]
pub fn decode_blocks(b: &Vec<u8>) -> (r: Result<Vec<SavedBlock>, LoadError>)
    ensures
        r matches Ok(rs) ==> encode_records(rs@) == b@,
        r matches Ok(rs) ==> forall|rs2: Seq<SavedBlock>| #[trigger] encode_records(rs2) == b@ ==> rs2 == rs@,
        r is Ok <==> is_encoding(b@),
        r matches Err(e) ==> e == LoadError::Malformed,
{
    let mut out: Vec<SavedBlock> = Vec::new();
    let mut pos: usize = 0;
    assert(b@.subrange(0, 0) =~= Seq::<u8>::empty());
    assert forall|rs2: Seq<SavedBlock>| #[trigger] encode_records(rs2) == b@ implies rs2.take(0) == out@
        && encode_records(rs2.skip(0)) == b@.subrange(0, b@.len() as int) by {
        assert(rs2.take(0) =~= out@);
        assert(rs2.skip(0) =~= rs2);
        assert(b@.subrange(0, b@.len() as int) =~= b@);
    }
    while pos < b.len()
        invariant
            pos <= b@.len(),
            encode_records(out@) == b@.subrange(0, pos as int),
            forall|rs2: Seq<SavedBlock>| #[trigger] encode_records(rs2) == b@ ==> out@.len() <= rs2.len()
                && rs2.take(out@.len() as int) == out@ && encode_records(rs2.skip(out@.len() as int))
                == b@.subrange(pos as int, b@.len() as int),
        decreases b@.len() - pos,
    {
        let k = out.len();
        proof {
            assert forall|rs2: Seq<SavedBlock>| #[trigger] encode_records(rs2) == b@ implies k < rs2.len()
                && line_at(b@, pos as int, rs2[k as int]) && encode_records(rs2.skip(k + 1))
                == b@.subrange(pos + record_line(rs2[k as int]).len(), b@.len() as int) by {
                lemma_next_line(b@, pos as int, rs2, k as int);
            }
        }
        match parse_line(b, pos) {
            None => {
                return Err(LoadError::Malformed);
            },
            Some((rec, e)) => {
                let ghost before = out@;
                out.push(rec);
                proof {
                    assert(out@.drop_last() =~= before);
                    assert(b@.subrange(0, e as int) =~= b@.subrange(0, pos as int) + b@.subrange(pos as int, e as int));
                    assert forall|rs2: Seq<SavedBlock>| #[trigger] encode_records(rs2) == b@ implies out@.len() <= rs2.len()
                        && rs2.take(out@.len() as int) == out@ && encode_records(rs2.skip(out@.len() as int))
                        == b@.subrange(e as int, b@.len() as int) by {
                        assert(rs2[k as int] == rec);
                        assert(rs2.take(k + 1) =~= rs2.take(k as int).push(rec));
                    }
                }
                pos = e;
            },
        }
    }
    proof {
        assert(b@.subrange(0, b@.len() as int) =~= b@);
        assert forall|rs2: Seq<SavedBlock>| #[trigger] encode_records(rs2) == b@ implies rs2 == out@ by {
            let rest = rs2.skip(out@.len() as int);
            assert(b@.subrange(pos as int, b@.len() as int) =~= Seq::<u8>::empty());
            if rest.len() > 0 {
                lemma_encode_first(rest);
                lemma_dec_digits(rest[0].x as nat);
            }
            assert(rs2 =~= rs2.take(out@.len() as int));
        }
    }
    Ok(out)
}

/// The saved blocks of column `c`, from the bottom up.
pub open spec fn column_records(col: Seq<Option<BlockType>>, c: int) -> Seq<SavedBlock>
    decreases col.len(),
{
    if col.len() == 0 {
        seq![]
    } else {
        let prev = column_records(col.drop_last(), c);
        match col.last() {
            Some(t) => prev.push(
                SavedBlock {
                    x: (c / 16) as u32,
                    y: (col.len() - 1) as u32,
                    z: (c % 16) as u32,
                    type_id: type_id_spec(t),
                },
            ),
            None => prev,
        }
    }
}

/// The saved blocks of the first `n` columns, column by column.
pub open spec fn chunk_records(cols: Seq<Seq<Option<BlockType>>>, n: nat) -> Seq<SavedBlock>
    decreases n,
{
    if n == 0 {
        seq![]
    } else {
        chunk_records(cols, (n - 1) as nat) + column_records(cols[n - 1], n - 1)
    }
}

/// A saved block that a chunk can hold.
pub open spec fn record_valid(r: SavedBlock) -> bool {
    &&& r.x < 16
    &&& r.z < 16
    &&& r.y < MAX_HEIGHT
    &&& type_from_id_spec(r.type_id) is Some
}

pub open spec fn records_valid(rs: Seq<SavedBlock>) -> bool {
    forall|i: int| 0 <= i < rs.len() ==> record_valid(#[trigger] rs[i])
}

/// Columns with no slots.
pub open spec fn empty_cols() -> Seq<Seq<Option<BlockType>>> {
    Seq::new(256, |i: int| Seq::<Option<BlockType>>::empty())
}

/// The columns after each saved block of `rs` is added in order.
pub open spec fn apply_records(cols: Seq<Seq<Option<BlockType>>>, rs: Seq<SavedBlock>) -> Seq<
    Seq<Option<BlockType>>,
>
    decreases rs.len(),
{
    if rs.len() == 0 {
        cols
    } else {
        let r = rs.last();
        add_spec(
            apply_records(cols, rs.drop_last()),
            r.x as int,
            r.y as int,
            r.z as int,
            type_from_id_spec(r.type_id)->Some_0,
        )
    }
}

/// What a column holds at height `y`; nothing above its end.
pub open spec fn slot_value(col: Seq<Option<BlockType>>, y: int) -> Option<BlockType> {
    if 0 <= y < col.len() {
        col[y]
    } else {
        None
    }
}

proof fn lemma_apply_append(cols: Seq<Seq<Option<BlockType>>>, a: Seq<SavedBlock>, b: Seq<SavedBlock>)
    ensures
        apply_records(cols, a + b) == apply_records(apply_records(cols, a), b),
    decreases b.len(),
{
    if b.len() == 0 {
        assert(a + b =~= a);
    } else {
        assert((a + b).drop_last() =~= a + b.drop_last());
        lemma_apply_append(cols, a, b.drop_last());
    }
}

proof fn lemma_column_round_trip(s: Seq<Seq<Option<BlockType>>>, col: Seq<Option<BlockType>>, c: int)
    requires
        s.len() == 256,
        0 <= c < 256,
        s[c].len() == 0,
        col.len() <= MAX_HEIGHT,
    ensures
        ({
            let r = apply_records(s, column_records(col, c));
            &&& r.len() == 256
            &&& forall|i: int| 0 <= i < 256 && i != c ==> #[trigger] r[i] == s[i]
            &&& r[c].len() <= col.len()
            &&& forall|y: int| #[trigger] slot_value(r[c], y) == slot_value(col, y)
        }),
        records_valid(column_records(col, c)),
    decreases col.len(),
{
    if col.len() > 0 {
        let p = col.drop_last();
        lemma_column_round_trip(s, p, c);
        let prev = apply_records(s, column_records(p, c));
        let n = (col.len() - 1) as int;
        assert forall|y: int| #[trigger] slot_value(col, y) == (if y == n { col.last() } else { slot_value(p, y) }) by {}
        match col.last() {
            Some(t) => {
                let rec = SavedBlock {
                    x: (c / 16) as u32,
                    y: n as u32,
                    z: (c % 16) as u32,
                    type_id: type_id_spec(t),
                };
                let recs = column_records(p, c).push(rec);
                assert(recs.drop_last() =~= column_records(p, c));
                lemma_type_id_round_trip(t);
                assert(column_of(rec.x as int, rec.z as int) == c);
                let r = apply_records(s, recs);
                assert(r == add_spec(prev, rec.x as int, n, rec.z as int, t));
                assert forall|y: int| #[trigger] slot_value(r[c], y) == slot_value(col, y) by {
                    if 0 <= y < prev[c].len() {
                        assert(slot_value(prev[c], y) == slot_value(p, y));
                    } else if y < n {
                        assert(slot_value(prev[c], y) == slot_value(p, y));
                    }
                }
                assert forall|i: int| 0 <= i < recs.len() implies record_valid(#[trigger] recs[i]) by {
                    if i < recs.len() - 1 {
                        assert(recs[i] == column_records(p, c)[i]);
                    }
                }
            },
            None => {
                assert forall|y: int| #[trigger] slot_value(prev[c], y) == slot_value(col, y) by {
                    if y == n {
                        assert(slot_value(prev[c], y) == slot_value(p, y));
                    }
                }
            },
        }
    } else {
        assert forall|y: int| #[trigger] slot_value(s[c], y) == slot_value(col, y) by {}
    }
}

proof fn lemma_chunk_round_trip(cols: Seq<Seq<Option<BlockType>>>, n: nat)
    requires
        cols_wf(cols),
        n <= 256,
    ensures
        ({
            let a = apply_records(empty_cols(), chunk_records(cols, n));
            &&& a.len() == 256
            &&& forall|i: int, y: int| 0 <= i < n ==> #[trigger] slot_value(a[i], y) == slot_value(cols[i], y)
            &&& forall|i: int| n <= i < 256 ==> (#[trigger] a[i]).len() == 0
        }),
        records_valid(chunk_records(cols, n)),
    decreases n,
{
    if n == 0 {
        assert forall|i: int| 0 <= i < 256 implies (#[trigger] empty_cols()[i]).len() == 0 by {}
    } else {
        let m = (n - 1) as nat;
        lemma_chunk_round_trip(cols, m);
        let a = apply_records(empty_cols(), chunk_records(cols, m));
        lemma_apply_append(empty_cols(), chunk_records(cols, m), column_records(cols[m as int], m as int));
        lemma_column_round_trip(a, cols[m as int], m as int);
        let b = apply_records(empty_cols(), chunk_records(cols, n));
        assert forall|i: int, y: int| 0 <= i < n implies #[trigger] slot_value(b[i], y) == slot_value(cols[i], y) by {
            if i < m {
                assert(b[i] == a[i]);
                assert(slot_value(a[i], y) == slot_value(cols[i], y));
            }
        }
        let left = chunk_records(cols, m);
        let right = column_records(cols[m as int], m as int);
        assert forall|i: int| 0 <= i < (left + right).len() implies record_valid(#[trigger] (left + right)[i]) by {
            if i < left.len() {
                assert(record_valid(left[i]));
            } else {
                assert(record_valid(right[i - left.len()]));
            }
        }
    }
}

/// Saving a chunk and loading the saved text gives back the same blocks: every saved
/// record is one a chunk can hold, and adding the records to empty columns reproduces
/// what every position of the chunk holds.
pub proof fn lemma_save_load_round_trip(cols: Seq<Seq<Option<BlockType>>>)
    requires
        cols_wf(cols),
    ensures
        records_valid(chunk_records(cols, 256)),
        is_encoding(encode_records(chunk_records(cols, 256))),
        forall|x: int, y: int, z: int| #[trigger] slot_in(apply_records(empty_cols(), chunk_records(cols, 256)), x, y, z)
            == slot_in(cols, x, y, z),
{
    lemma_chunk_round_trip(cols, 256);
    let a = apply_records(empty_cols(), chunk_records(cols, 256));
    assert forall|x: int, y: int, z: int| #[trigger] slot_in(a, x, y, z) == slot_in(cols, x, y, z) by {
        if in_footprint(x, z) {
            let c = column_of(x, z);
            assert(slot_value(a[c], y) == slot_value(cols[c], y));
        }
    }
    let rs = chunk_records(cols, 256);
    assert(encode_records(rs) == encode_records(rs));
}

impl Chunk {
    /// A chunk at `(x, y)` whose columns hold no slots.
    pub fn empty(x: i32, y: i32) -> (r: Chunk)
        ensures
            r.wf(),
            r.x == x,
            r.y == y,
            r.cols() == empty_cols(),
            r.outside_blocks@.len() == 0,
    {
        let mut blocks: Vec<Vec<Option<BlockType>>> = Vec::new();
        let mut i: usize = 0;
        while i < 256
            invariant
                i <= 256,
                blocks@.len() == i,
                forall|j: int| 0 <= j < i ==> (#[trigger] blocks@[j])@.len() == 0,
            decreases 256 - i,
        {
            blocks.push(Vec::new());
            i += 1;
        }
        let r = Chunk { x, y, blocks, outside_blocks: Vec::new() };
        assert forall|j: int| 0 <= j < 256 implies #[trigger] r.cols()[j] == empty_cols()[j] by {
            assert(r.cols()[j] =~= Seq::<Option<BlockType>>::empty());
        }
        assert(r.cols() =~= empty_cols());
        r
    }

    /// The chunk's present blocks as saved blocks, column by column, from the bottom up.
    pub fn saved_blocks(&self) -> (r: Vec<SavedBlock>)
        requires
            self.wf(),
        ensures
            r@ == chunk_records(self.cols(), 256),
    {
        let mut out: Vec<SavedBlock> = Vec::new();
        let mut c: usize = 0;
        while c < self.blocks.len()
            invariant
                self.wf(),
                c <= 256,
                out@ == chunk_records(self.cols(), c as nat),
            decreases 256 - c,
        {
            let col = &self.blocks[c];
            assert(col@ == self.cols()[c as int]);
            let ghost base = out@;
            let mut y: usize = 0;
            while y < col.len()
                invariant
                    c < 256,
                    col@.len() <= MAX_HEIGHT,
                    y <= col@.len(),
                    out@ == base + column_records(col@.take(y as int), c as int),
                decreases col@.len() - y,
            {
                assert(col@.take(y + 1).drop_last() =~= col@.take(y as int));
                assert(col@.take(y + 1).last() == col@[y as int]);
                match col[y] {
                    Some(t) => {
                        out.push(
                            SavedBlock {
                                x: (c / 16) as u32,
                                y: y as u32,
                                z: (c % 16) as u32,
                                type_id: t.to_id(),
                            },
                        );
                        assert(out@ =~= base + column_records(col@.take(y + 1), c as int));
                    },
                    None => {},
                }
                y += 1;
            }
            assert(col@.take(col@.len() as int) =~= col@);
            c += 1;
        }
        out
    }

    /// The text of the chunk's file: one line `x,y,z,type_id` per present block.
    pub fn save(&self) -> (r: Vec<u8>)
        requires
            self.wf(),
        ensures
            r@ == encode_records(chunk_records(self.cols(), 256)),
    {
        let records = self.saved_blocks();
        encode_blocks(&records)
    }

    /// The chunk at `(x, y)` that the text `data` of its file describes. Fails with
    /// `Malformed` where the text does not follow the format or a block in it lies outside
    /// the chunk, too high, or has an unknown type id.
    pub fn load(x: i32, y: i32, data: &Vec<u8>) -> (r: Result<Chunk, LoadError>)
        ensures
            r is Ok <==> (is_encoding(data@) && forall|rs: Seq<SavedBlock>| #[trigger] encode_records(rs) == data@
                ==> records_valid(rs)),
            r matches Ok(ch) ==> {
                &&& ch.wf()
                &&& ch.x == x
                &&& ch.y == y
                &&& ch.outside_blocks@.len() == 0
                &&& forall|rs: Seq<SavedBlock>| #[trigger] encode_records(rs) == data@ ==> ch.cols() == apply_records(empty_cols(), rs)
            },
            r matches Err(e) ==> e == LoadError::Malformed,
    {
        let records = match decode_blocks(data) {
            Ok(rs) => rs,
            Err(e) => return Err(e),
        };
        let mut chunk = Chunk::empty(x, y);
        let mut i: usize = 0;
        while i < records.len()
            invariant
                i <= records@.len(),
                chunk.wf(),
                chunk.x == x,
                chunk.y == y,
                chunk.outside_blocks@.len() == 0,
                encode_records(records@) == data@,
                forall|rs2: Seq<SavedBlock>| #[trigger] encode_records(rs2) == data@ ==> rs2 == records@,
                records_valid(records@.take(i as int)),
                chunk.cols() == apply_records(empty_cols(), records@.take(i as int)),
            decreases records@.len() - i,
        {
            let r = records[i];
            assert(records@.take(i + 1).drop_last() =~= records@.take(i as int));
            if r.x >= 16 || r.z >= 16 || r.y >= MAX_HEIGHT {
                proof {
                    assert(encode_records(records@) == data@);
                    assert(!record_valid(records@[i as int]));
                }
                return Err(LoadError::Malformed);
            }
            let t = match BlockType::from_id(r.type_id) {
                Some(t) => t,
                None => {
                    proof {
                        assert(encode_records(records@) == data@);
                        assert(!record_valid(records@[i as int]));
                    }
                    return Err(LoadError::Malformed);
                },
            };
            chunk.add_block(
                Block {
                    position: BlockPos { x: r.x as i64, y: r.y as i64, z: r.z as i64 },
                    chunk: ChunkCoord { x, y },
                    block_type: t,
                },
            );
            proof {
                assert forall|j: int| 0 <= j < i + 1 implies record_valid(#[trigger] records@.take(i + 1)[j]) by {
                    if j < i {
                        assert(records@.take(i + 1)[j] == records@.take(i as int)[j]);
                    }
                }
            }
            i += 1;
        }
        assert(records@.take(records@.len() as int) =~= records@);
        Ok(chunk)
    }
}

/// Whether `data` is the text of a chunk file that loads: it follows the format and
/// every block in it fits in a chunk.
pub open spec fn loads_from(data: Seq<u8>) -> bool {
    is_encoding(data) && forall|rs: Seq<SavedBlock>| #[trigger] encode_records(rs) == data ==> records_valid(rs)
}

impl Chunk {
    /// The chunk at `(x, y)` from the text of its file: `NotFound` where there is no file,
    /// else as `load` gives it.
    pub fn from_saved(x: i32, y: i32, saved: &Option<Vec<u8>>) -> (r: Result<Chunk, LoadError>)
        ensures
            saved is None ==> r == Err::<Chunk, LoadError>(LoadError::NotFound),
            saved matches Some(data) ==> (r is Ok <==> loads_from(data@)),
            saved matches Some(data) ==> (r matches Err(e) ==> e == LoadError::Malformed),
            r matches Ok(ch) ==> {
                &&& ch.wf()
                &&& ch.x == x
                &&& ch.y == y
                &&& ch.outside_blocks@.len() == 0
                &&& forall|rs: Seq<SavedBlock>| #[trigger] encode_records(rs) == saved->Some_0@ ==> ch.cols() == apply_records(empty_cols(), rs)
            },
    {
        match saved {
            Some(data) => Chunk::load(x, y, data),
            None => Err(LoadError::NotFound),
        }
    }

    /// The chunk at `(x, y)`: loaded from `saved`, the text of its file, where that loads;
    /// else freshly generated from the noise tile, with trees planted on it.
    pub fn new(x: i32, y: i32, noise_data: &NoiseField, saved: &Option<Vec<u8>>) -> (r: Chunk)
        requires
            noise_data.wf(),
            i32::MIN < x < i32::MAX,
            i32::MIN < y < i32::MAX,
        ensures
            r.wf(),
            r.x == x,
            r.y == y,
            (saved matches Some(data) && loads_from(data@)) ==> {
                &&& r.outside_blocks@.len() == 0
                &&& forall|rs: Seq<SavedBlock>| #[trigger] encode_records(rs) == saved->Some_0@ ==> r.cols() == apply_records(empty_cols(), rs)
            },
            !(saved matches Some(data) && loads_from(data@)) ==> {
                &&& forall|px: int, py: int, pz: int| #[trigger] slot_in(generated_terrain(noise_data, x as int, y as int), px, py, pz) is Some
                    ==> slot_in(r.cols(), px, py, pz) is Some
                &&& forall|i: int| 0 <= i < r.outside_blocks@.len() ==> (#[trigger] r.outside_blocks@[i]).chunk != r.coord()
            },
    {
        if let Ok(chunk) = Chunk::from_saved(x, y, saved) {
            return chunk;
        }
        let blocks = Chunk::create_blocks_data(x, y, noise_data);
        let mut chunk = Chunk { x, y, blocks, outside_blocks: Vec::new() };
        let ghost generated = chunk;
        chunk.place_trees();
        proof {
            assert(generated.cols() == generated_terrain(noise_data, x as int, y as int));
        }
        chunk
    }
}

/// Decimal form of a signed number: a minus sign before the digits of a negative one.
pub open spec fn signed_dec(v: int) -> Seq<u8> {
    if v < 0 {
        seq![45u8] + dec((-v) as nat)
    } else {
        dec(v as nat)
    }
}

/// Path of the file of chunk `(x, y)`: `data/chunk{x}_{y}`.
pub open spec fn chunk_file_name_spec(x: int, y: int) -> Seq<u8> {
    seq![100u8, 97, 116, 97, 47, 99, 104, 117, 110, 107] + signed_dec(x) + seq![95u8] + signed_dec(y)
}

fn push_signed_dec(out: &mut Vec<u8>, v: i32)
    ensures
        final(out)@ == old(out)@ + signed_dec(v as int),
{
    if v < 0 {
        out.push(45);
        let m: u32 = (-(v as i64)) as u32;
        push_dec(out, m);
        assert(final(out)@ =~= old(out)@ + signed_dec(v as int));
    } else {
        push_dec(out, v as u32);
    }
}

/// Path of the file that holds chunk `(x, y)`, as bytes: `data/chunk{x}_{y}`.
pub fn chunk_file_name(x: i32, y: i32) -> (r: Vec<u8>)
    ensures
        r@ == chunk_file_name_spec(x as int, y as int),
{
    let mut out: Vec<u8> = vec![100, 97, 116, 97, 47, 99, 104, 117, 110, 107];
    push_signed_dec(&mut out, x);
    out.push(95);
    push_signed_dec(&mut out, y);
    assert(out@ =~= chunk_file_name_spec(x as int, y as int));
    out
}

/// Loading the text that saving a chunk wrote gives a chunk that holds, at every position,
/// what the saved chunk held.
pub proof fn lemma_loaded_chunk_matches(saved: &Chunk, loaded: &Chunk)
    requires
        saved.wf(),
        forall|rs: Seq<SavedBlock>| #[trigger] encode_records(rs) == encode_records(chunk_records(saved.cols(), 256))
            ==> loaded.cols() == apply_records(empty_cols(), rs),
    ensures
        forall|p: BlockPos| #[trigger] loaded.slot(p) == saved.slot(p),
{
    lemma_save_load_round_trip(saved.cols());
    let rs = chunk_records(saved.cols(), 256);
    assert(loaded.cols() == apply_records(empty_cols(), rs));
    assert forall|p: BlockPos| #[trigger] loaded.slot(p) == saved.slot(p) by {
        assert(slot_in(apply_records(empty_cols(), rs), p.x as int, p.y as int, p.z as int)
            == slot_in(saved.cols(), p.x as int, p.y as int, p.z as int));
    }
}

} // verus!
