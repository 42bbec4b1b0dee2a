//! A byte format for saved scenes.
//!
//! Scenes travel as plain bytes: every integer is eight bytes little
//! endian, every value is a one-byte kind marker followed by its eight
//! payload bytes, and every sequence is its length followed by its
//! elements.  The decoder accepts exactly the encoder's output — parsing
//! an encoded scene gives back the scene — and rejects anything else with
//! a descriptive error instead of guessing.

use vstd::prelude::*;

use crate::scene::SceneData;
use crate::value::Value;

verus! {

/// The little-endian bytes of `x`.
pub open spec fn le(x: u64) -> Seq<u8> {
    seq![
        (x & 0xff) as u8,
        ((x >> 8) & 0xff) as u8,
        ((x >> 16) & 0xff) as u8,
        ((x >> 24) & 0xff) as u8,
        ((x >> 32) & 0xff) as u8,
        ((x >> 40) & 0xff) as u8,
        ((x >> 48) & 0xff) as u8,
        ((x >> 56) & 0xff) as u8,
    ]
}

/// The integer read back from eight little-endian bytes.
pub open spec fn from_le(s: Seq<u8>) -> u64 {
    (s[0] as u64) | ((s[1] as u64) << 8) | ((s[2] as u64) << 16) | ((s[3] as u64) << 24) | ((
    s[4] as u64) << 32) | ((s[5] as u64) << 40) | ((s[6] as u64) << 48) | ((s[7] as u64) << 56)
}

proof fn lemma_le_round_trip(x: u64)
    ensures
        from_le(le(x)) == x,
{
    assert(((x & 0xff) as u8) as u64 | ((((x >> 8) & 0xff) as u8) as u64) << 8 | ((((x >> 16)
        & 0xff) as u8) as u64) << 16 | ((((x >> 24) & 0xff) as u8) as u64) << 24 | ((((x >> 32)
        & 0xff) as u8) as u64) << 32 | ((((x >> 40) & 0xff) as u8) as u64) << 40 | ((((x >> 48)
        & 0xff) as u8) as u64) << 48 | ((((x >> 56) & 0xff) as u8) as u64) << 56 == x)
        by (bit_vector);
}

/// The kind markers: a signed value, an unsigned value, a truth value.
pub open spec fn tag_of(v: Value) -> u8 {
    match v {
        Value::Int(_) => 0,
        Value::UInt(_) => 1,
        Value::Bool(_) => 2,
    }
}

/// The payload bytes carry the value itself.
pub open spec fn payload_of(v: Value) -> u64 {
    match v {
        Value::Int(x) => x as u64,
        Value::UInt(x) => x,
        Value::Bool(b) => if b {
            1
        } else {
            0
        },
    }
}

/// One encoded value: its kind marker and its payload.
pub open spec fn val_bytes(v: Value) -> Seq<u8> {
    seq![tag_of(v)] + le(payload_of(v))
}

/// The encoded values of a row, in order.
pub open spec fn vals_bytes(row: Seq<Value>) -> Seq<u8>
    decreases row.len(),
{
    if row.len() == 0 {
        Seq::empty()
    } else {
        val_bytes(row[0]) + vals_bytes(row.skip(1))
    }
}

/// One encoded row: its width, then its values.
pub open spec fn row_bytes(row: Seq<Value>) -> Seq<u8> {
    le(row.len() as u64) + vals_bytes(row)
}

/// The encoded rows of a group, in order.
pub open spec fn rows_bytes(rows: Seq<Seq<Value>>) -> Seq<u8>
    decreases rows.len(),
{
    if rows.len() == 0 {
        Seq::empty()
    } else {
        row_bytes(rows[0]) + rows_bytes(rows.skip(1))
    }
}

/// One encoded group: its archetype key, its row count, then its rows.
pub open spec fn group_bytes(g: (u64, Seq<Seq<Value>>)) -> Seq<u8> {
    le(g.0) + le(g.1.len() as u64) + rows_bytes(g.1)
}

/// The encoded groups of a scene, in order.
pub open spec fn groups_bytes(gs: Seq<(u64, Seq<Seq<Value>>)>) -> Seq<u8>
    decreases gs.len(),
{
    if gs.len() == 0 {
        Seq::empty()
    } else {
        group_bytes(gs[0]) + groups_bytes(gs.skip(1))
    }
}

/// A whole encoded scene: its group count, then its groups.
pub open spec fn data_bytes(gs: Seq<(u64, Seq<Seq<Value>>)>) -> Seq<u8> {
    le(gs.len() as u64) + groups_bytes(gs)
}

/// Why a byte buffer is not an encoded scene.
#[derive(Clone, Copy, Debug, PartialEq, Eq, Structural)]
pub enum CodecError {
    /// The buffer ends in the middle of a field.
    Truncated,
    /// A value carries an unknown kind marker.
    BadTag,
    /// A truth value's payload is neither zero nor one.
    BadPayload,
    /// A length does not fit this machine.
    Oversized,
    /// Bytes follow the encoded scene.
    TrailingBytes,
}

/// Parses eight little-endian bytes at `pos`.
pub open spec fn p_u64(bs: Seq<u8>, pos: int) -> Option<(u64, int)> {
    if 0 <= pos && pos + 8 <= bs.len() {
        Some((from_le(bs.subrange(pos, pos + 8)), pos + 8))
    } else {
        None
    }
}

/// Parses one value at `pos`: a known kind marker, then a payload the kind
/// admits.
pub open spec fn p_value(bs: Seq<u8>, pos: int) -> Option<(Value, int)> {
    if 0 <= pos && pos + 9 <= bs.len() {
        let tag = bs[pos];
        let payload = from_le(bs.subrange(pos + 1, pos + 9));
        if tag == 0 {
            Some((Value::Int(payload as i64), pos + 9))
        } else if tag == 1 {
            Some((Value::UInt(payload), pos + 9))
        } else if tag == 2 && payload == 1 {
            Some((Value::Bool(true), pos + 9))
        } else if tag == 2 && payload == 0 {
            Some((Value::Bool(false), pos + 9))
        } else {
            None
        }
    } else {
        None
    }
}

/// Parses `n` values at `pos`.
pub open spec fn p_vals(bs: Seq<u8>, pos: int, n: nat) -> Option<(Seq<Value>, int)>
    decreases n,
{
    if n == 0 {
        Some((Seq::empty(), pos))
    } else {
        match p_value(bs, pos) {
            Some((v, next)) => match p_vals(bs, next, (n - 1) as nat) {
                Some((rest, end)) => Some((seq![v] + rest, end)),
                None => None,
            },
            None => None,
        }
    }
}

/// Parses one row at `pos`: a machine-sized width, then that many values.
pub open spec fn p_row(bs: Seq<u8>, pos: int) -> Option<(Seq<Value>, int)> {
    match p_u64(bs, pos) {
        Some((count, next)) => if count <= usize::MAX {
            p_vals(bs, next, count as nat)
        } else {
            None
        },
        None => None,
    }
}

/// Parses `n` rows at `pos`.
pub open spec fn p_rows(bs: Seq<u8>, pos: int, n: nat) -> Option<(Seq<Seq<Value>>, int)>
    decreases n,
{
    if n == 0 {
        Some((Seq::empty(), pos))
    } else {
        match p_row(bs, pos) {
            Some((row, next)) => match p_rows(bs, next, (n - 1) as nat) {
                Some((rest, end)) => Some((seq![row] + rest, end)),
                None => None,
            },
            None => None,
        }
    }
}

/// Parses one group at `pos`: a key, a machine-sized row count, then the
/// rows.
pub open spec fn p_group(bs: Seq<u8>, pos: int) -> Option<((u64, Seq<Seq<Value>>), int)> {
    match p_u64(bs, pos) {
        Some((key, next1)) => match p_u64(bs, next1) {
            Some((count, next2)) => if count <= usize::MAX {
                match p_rows(bs, next2, count as nat) {
                    Some((rows, end)) => Some(((key, rows), end)),
                    None => None,
                }
            } else {
                None
            },
            None => None,
        },
        None => None,
    }
}

/// Parses `n` groups at `pos`.
pub open spec fn p_groups(bs: Seq<u8>, pos: int, n: nat) -> Option<
    (Seq<(u64, Seq<Seq<Value>>)>, int),
>
    decreases n,
{
    if n == 0 {
        Some((Seq::empty(), pos))
    } else {
        match p_group(bs, pos) {
            Some((g, next)) => match p_groups(bs, next, (n - 1) as nat) {
                Some((rest, end)) => Some((seq![g] + rest, end)),
                None => None,
            },
            None => None,
        }
    }
}

/// Parses a whole buffer as one encoded scene: a machine-sized group
/// count, the groups, and nothing after them.
pub open spec fn p_data(bs: Seq<u8>) -> Option<Seq<(u64, Seq<Seq<Value>>)>> {
    match p_u64(bs, 0) {
        Some((count, next)) => if count <= usize::MAX {
            match p_groups(bs, next, count as nat) {
                Some((gs, end)) => if end == bs.len() {
                    Some(gs)
                } else {
                    None
                },
                None => None,
            }
        } else {
            None
        },
        None => None,
    }
}

/// Appends the little-endian bytes of `x`.
fn push_u64(out: &mut Vec<u8>, x: u64)
    ensures
        final(out)@ == old(out)@ + le(x),
{
    out.push((x & 0xff) as u8);
    out.push(((x >> 8) & 0xff) as u8);
    out.push(((x >> 16) & 0xff) as u8);
    out.push(((x >> 24) & 0xff) as u8);
    out.push(((x >> 32) & 0xff) as u8);
    out.push(((x >> 40) & 0xff) as u8);
    out.push(((x >> 48) & 0xff) as u8);
    out.push(((x >> 56) & 0xff) as u8);
    proof {
        assert(final(out)@ =~= old(out)@ + le(x));
    }
}

/// Reads eight little-endian bytes at `pos`.
fn read_u64(buf: &Vec<u8>, pos: usize) -> (r: Option<(u64, usize)>)
    ensures
        r is Some <==> p_u64(buf@, pos as int) is Some,
        r matches Some(p) ==> p_u64(buf@, pos as int) == Some((p.0, p.1 as int)),
{
    if pos >= buf.len() || buf.len() - pos < 8 {
        return None;
    }
    let v = (buf[pos] as u64) | ((buf[pos + 1] as u64) << 8) | ((buf[pos + 2] as u64) << 16) | ((
    buf[pos + 3] as u64) << 24) | ((buf[pos + 4] as u64) << 32) | ((buf[pos + 5] as u64) << 40) | ((
    buf[pos + 6] as u64) << 48) | ((buf[pos + 7] as u64) << 56);
    proof {
        let s = buf@.subrange(pos as int, pos as int + 8);
        assert(s[0] == buf@[pos as int]);
        assert(s[1] == buf@[pos as int + 1]);
        assert(s[2] == buf@[pos as int + 2]);
        assert(s[3] == buf@[pos as int + 3]);
        assert(s[4] == buf@[pos as int + 4]);
        assert(s[5] == buf@[pos as int + 5]);
        assert(s[6] == buf@[pos as int + 6]);
        assert(s[7] == buf@[pos as int + 7]);
        assert(v == from_le(s));
    }
    Some((v, pos + 8))
}

/// Encodes a saved scene as bytes.
pub fn encode(data: &SceneData) -> (r: Vec<u8>)
    ensures
        r@ == data_bytes(data.view_groups()),
{
    let ghost gs = data.view_groups();
    let mut out: Vec<u8> = Vec::new();
    push_u64(&mut out, data.groups.len() as u64);
    let ng = data.groups.len();
    for g in 0..ng
        invariant
            gs == data.view_groups(),
            ng == data.groups@.len(),
            out@ == le(gs.len() as u64) + groups_bytes(gs.take(g as int)),
    {
        let ghost pre = out@;
        push_u64(&mut out, data.groups[g].0);
        push_u64(&mut out, data.groups[g].1.len() as u64);
        let nr = data.groups[g].1.len();
        for j in 0..nr
            invariant
                gs == data.view_groups(),
                ng == data.groups@.len(),
                g < ng,
                nr == gs[g as int].1.len(),
                nr == data.groups@[g as int].1@.len(),
                out@ == pre + le(gs[g as int].0) + le(nr as u64) + rows_bytes(
                    gs[g as int].1.take(j as int),
                ),
        {
            let ghost rpre = out@;
            let row = &data.groups[g].1[j];
            push_u64(&mut out, row.len() as u64);
            let nv = row.len();
            proof {
                assert(gs[g as int] == (
                    data.groups@[g as int].0,
                    data.groups@[g as int].1@.map_values(|r2: Vec<Value>| r2@),
                ));
                assert(gs[g as int].1[j as int] == data.groups@[g as int].1@[j as int]@);
            }
            for k in 0..nv
                invariant
                    gs == data.view_groups(),
                    ng == data.groups@.len(),
                    g < ng,
                    j < nr,
                    nr == gs[g as int].1.len(),
                    nv == row@.len(),
                    row@ == gs[g as int].1[j as int],
                    out@ == rpre + le(nv as u64) + vals_bytes(row@.take(k as int)),
            {
                let ghost vpre = out@;
                match row[k] {
                    Value::Int(x) => {
                        out.push(0);
                        push_u64(&mut out, x as u64);
                    },
                    Value::UInt(x) => {
                        out.push(1);
                        push_u64(&mut out, x);
                    },
                    Value::Bool(b) => {
                        out.push(2);
                        push_u64(&mut out, if b { 1 } else { 0 });
                    },
                }
                proof {
                    assert(out@ =~= vpre + val_bytes(row@[k as int]));
                    lemma_vals_bytes_snoc(row@, k as int);
                }
            }
            proof {
                assert(row@.take(nv as int) =~= row@);
                lemma_rows_bytes_snoc(gs[g as int].1, j as int);
                assert(out@ =~= rpre + row_bytes(gs[g as int].1[j as int]));
            }
        }
        proof {
            assert(gs[g as int].1.take(nr as int) =~= gs[g as int].1);
            lemma_groups_bytes_snoc(gs, g as int);
            assert(out@ =~= le(gs.len() as u64) + groups_bytes(gs.take(g as int + 1)));
        }
    }
    proof {
        assert(gs.take(ng as int) =~= gs);
    }
    out
}

/// Extending a row by one value appends that value's bytes.
proof fn lemma_vals_bytes_snoc(row: Seq<Value>, k: int)
    requires
        0 <= k < row.len(),
    ensures
        vals_bytes(row.take(k + 1)) == vals_bytes(row.take(k)) + val_bytes(row[k]),
    decreases k,
{
    if k == 0 {
        assert(row.take(1)[0] == row[0]);
        assert(row.take(1).skip(1) =~= Seq::<Value>::empty());
        assert(vals_bytes(row.take(1).skip(1)) == Seq::<u8>::empty());
        assert(vals_bytes(row.take(0)) == Seq::<u8>::empty());
        assert(vals_bytes(row.take(1)) =~= vals_bytes(row.take(0)) + val_bytes(row[0]));
    } else {
        assert(row.take(k + 1).skip(1) =~= row.skip(1).take(k));
        assert(row.take(k).skip(1) =~= row.skip(1).take(k - 1));
        lemma_vals_bytes_snoc(row.skip(1), k - 1);
        assert(row.take(k + 1)[0] == row[0]);
        assert(row.take(k)[0] == row[0]);
        assert(row.skip(1)[k - 1] == row[k]);
        assert(vals_bytes(row.take(k + 1)) =~= vals_bytes(row.take(k)) + val_bytes(row[k]));
    }
}

/// Extending a group by one row appends that row's bytes.
proof fn lemma_rows_bytes_snoc(rows: Seq<Seq<Value>>, j: int)
    requires
        0 <= j < rows.len(),
    ensures
        rows_bytes(rows.take(j + 1)) == rows_bytes(rows.take(j)) + row_bytes(rows[j]),
    decreases j,
{
    if j == 0 {
        assert(rows.take(1)[0] == rows[0]);
        assert(rows.take(1).skip(1) =~= Seq::<Seq<Value>>::empty());
        assert(rows_bytes(rows.take(1).skip(1)) == Seq::<u8>::empty());
        assert(rows_bytes(rows.take(0)) == Seq::<u8>::empty());
        assert(rows_bytes(rows.take(1)) =~= rows_bytes(rows.take(0)) + row_bytes(rows[0]));
    } else {
        assert(rows.take(j + 1).skip(1) =~= rows.skip(1).take(j));
        assert(rows.take(j).skip(1) =~= rows.skip(1).take(j - 1));
        lemma_rows_bytes_snoc(rows.skip(1), j - 1);
        assert(rows.take(j + 1)[0] == rows[0]);
        assert(rows.take(j)[0] == rows[0]);
        assert(rows.skip(1)[j - 1] == rows[j]);
        assert(rows_bytes(rows.take(j + 1)) =~= rows_bytes(rows.take(j)) + row_bytes(rows[j]));
    }
}

/// Extending a scene by one group appends that group's bytes.
proof fn lemma_groups_bytes_snoc(gs: Seq<(u64, Seq<Seq<Value>>)>, g: int)
    requires
        0 <= g < gs.len(),
    ensures
        groups_bytes(gs.take(g + 1)) == groups_bytes(gs.take(g)) + group_bytes(gs[g]),
    decreases g,
{
    if g == 0 {
        assert(gs.take(1)[0] == gs[0]);
        assert(gs.take(1).skip(1) =~= Seq::<(u64, Seq<Seq<Value>>)>::empty());
        assert(groups_bytes(gs.take(1).skip(1)) == Seq::<u8>::empty());
        assert(groups_bytes(gs.take(0)) == Seq::<u8>::empty());
        assert(groups_bytes(gs.take(1)) =~= groups_bytes(gs.take(0)) + group_bytes(gs[0]));
    } else {
        assert(gs.take(g + 1).skip(1) =~= gs.skip(1).take(g));
        assert(gs.take(g).skip(1) =~= gs.skip(1).take(g - 1));
        lemma_groups_bytes_snoc(gs.skip(1), g - 1);
        assert(gs.take(g + 1)[0] == gs[0]);
        assert(gs.take(g)[0] == gs[0]);
        assert(gs.skip(1)[g - 1] == gs[g]);
        assert(groups_bytes(gs.take(g + 1)) =~= groups_bytes(gs.take(g)) + group_bytes(gs[g]));
    }
}


/// Reads one value at `pos`.
fn read_value(buf: &Vec<u8>, pos: usize) -> (r: Result<(Value, usize), CodecError>)
    ensures
        r is Ok <==> p_value(buf@, pos as int) is Some,
        r matches Ok(p) ==> p_value(buf@, pos as int) == Some((p.0, p.1 as int)),
{
    if pos >= buf.len() {
        return Err(CodecError::Truncated);
    }
    let tag = buf[pos];
    let payload = match read_u64(buf, pos + 1) {
        Some(p) => p,
        None => {
            return Err(CodecError::Truncated);
        },
    };
    proof {
        assert(pos as int + 9 <= buf@.len());
        assert(payload.0 == from_le(buf@.subrange(pos as int + 1, pos as int + 9)));
    }
    if tag == 0 {
        Ok((Value::Int(payload.0 as i64), payload.1))
    } else if tag == 1 {
        Ok((Value::UInt(payload.0), payload.1))
    } else if tag == 2 {
        if payload.0 == 1 {
            Ok((Value::Bool(true), payload.1))
        } else if payload.0 == 0 {
            Ok((Value::Bool(false), payload.1))
        } else {
            Err(CodecError::BadPayload)
        }
    } else {
        Err(CodecError::BadTag)
    }
}

/// Reads `n` values at `pos`.
fn read_vals(buf: &Vec<u8>, pos: usize, n: usize) -> (r: Result<(Vec<Value>, usize), CodecError>)
    ensures
        r is Ok <==> p_vals(buf@, pos as int, n as nat) is Some,
        r matches Ok(p) ==> p_vals(buf@, pos as int, n as nat) == Some((p.0@, p.1 as int)),
{
    let mut vs: Vec<Value> = Vec::new();
    let mut cur: usize = pos;
    for i in 0..n
        invariant
            vs@.len() == i,
            p_vals(buf@, pos as int, n as nat) == (match p_vals(
                buf@,
                cur as int,
                (n - i) as nat,
            ) {
                Option::Some((rest, end)) => Option::Some((vs@ + rest, end)),
                Option::None => Option::None::<(Seq<Value>, int)>,
            }),
    {
        let ghost vs_pre = vs@;
        match read_value(buf, cur) {
            Ok((v, next)) => {
                vs.push(v);
                cur = next;
                proof {
                    assert forall|rest: Seq<Value>| true implies vs_pre + (seq![v] + rest) == vs@
                        + rest by {
                        assert(vs_pre + (seq![v] + rest) =~= vs@ + rest);
                    }
                }
            },
            Err(e) => {
                proof {
                    assert(p_vals(buf@, cur as int, (n - i) as nat) is None);
                }
                return Err(e);
            },
        }
    }
    proof {
        assert(p_vals(buf@, cur as int, 0) == Some((Seq::<Value>::empty(), cur as int)));
        assert(vs@ + Seq::<Value>::empty() =~= vs@);
    }
    Ok((vs, cur))
}

/// Reads one row at `pos`.
fn read_row(buf: &Vec<u8>, pos: usize) -> (r: Result<(Vec<Value>, usize), CodecError>)
    ensures
        r is Ok <==> p_row(buf@, pos as int) is Some,
        r matches Ok(p) ==> p_row(buf@, pos as int) == Some((p.0@, p.1 as int)),
{
    let (count, next) = match read_u64(buf, pos) {
        Some(p) => p,
        None => {
            return Err(CodecError::Truncated);
        },
    };
    if count > usize::MAX as u64 {
        return Err(CodecError::Oversized);
    }
    match read_vals(buf, next, count as usize) {
        Ok(p) => Ok(p),
        Err(e) => Err(e),
    }
}

/// Reads `n` rows at `pos`.
fn read_rows(buf: &Vec<u8>, pos: usize, n: usize) -> (r: Result<
    (Vec<Vec<Value>>, usize),
    CodecError,
>)
    ensures
        r is Ok <==> p_rows(buf@, pos as int, n as nat) is Some,
        r matches Ok(p) ==> p_rows(buf@, pos as int, n as nat) == Some((
            p.0@.map_values(|row: Vec<Value>| row@),
            p.1 as int,
        )),
{
    let mut rows: Vec<Vec<Value>> = Vec::new();
    let mut cur: usize = pos;
    for i in 0..n
        invariant
            rows@.len() == i,
            p_rows(buf@, pos as int, n as nat) == (match p_rows(
                buf@,
                cur as int,
                (n - i) as nat,
            ) {
                Option::Some((rest, end)) => Option::Some((
                    rows@.map_values(|row: Vec<Value>| row@) + rest,
                    end,
                )),
                Option::None => Option::None::<(Seq<Seq<Value>>, int)>,
            }),
    {
        let ghost rows_pre = rows@.map_values(|row: Vec<Value>| row@);
        match read_row(buf, cur) {
            Ok((row, next)) => {
                let ghost rowv = row@;
                rows.push(row);
                cur = next;
                proof {
                    assert(rows@.map_values(|row2: Vec<Value>| row2@) =~= rows_pre.push(rowv));
                    assert forall|rest: Seq<Seq<Value>>| true implies rows_pre + (seq![rowv]
                        + rest) == rows_pre.push(rowv) + rest by {
                        assert(rows_pre + (seq![rowv] + rest) =~= rows_pre.push(rowv) + rest);
                    }
                }
            },
            Err(e) => {
                proof {
                    assert(p_rows(buf@, cur as int, (n - i) as nat) is None);
                }
                return Err(e);
            },
        }
    }
    proof {
        assert(p_rows(buf@, cur as int, 0) == Some((Seq::<Seq<Value>>::empty(), cur as int)));
        assert(rows@.map_values(|row: Vec<Value>| row@) + Seq::<Seq<Value>>::empty()
            =~= rows@.map_values(|row: Vec<Value>| row@));
    }
    Ok((rows, cur))
}

/// Reads one group at `pos`.
fn read_group(buf: &Vec<u8>, pos: usize) -> (r: Result<
    ((u64, Vec<Vec<Value>>), usize),
    CodecError,
>)
    ensures
        r is Ok <==> p_group(buf@, pos as int) is Some,
        r matches Ok(p) ==> p_group(buf@, pos as int) == Some((
            (p.0.0, p.0.1@.map_values(|row: Vec<Value>| row@)),
            p.1 as int,
        )),
{
    let (key, next1) = match read_u64(buf, pos) {
        Some(p) => p,
        None => {
            return Err(CodecError::Truncated);
        },
    };
    let (count, next2) = match read_u64(buf, next1) {
        Some(p) => p,
        None => {
            return Err(CodecError::Truncated);
        },
    };
    if count > usize::MAX as u64 {
        return Err(CodecError::Oversized);
    }
    match read_rows(buf, next2, count as usize) {
        Ok((rows, end)) => Ok(((key, rows), end)),
        Err(e) => Err(e),
    }
}

/// Decodes a byte buffer as a saved scene.  Succeeds exactly on the byte
/// strings the format admits — in particular on everything [`encode`]
/// produces — and reconstructs the encoded groups exactly.
pub fn decode(buf: &Vec<u8>) -> (r: Result<SceneData, CodecError>)
    ensures
        r is Ok <==> p_data(buf@) is Some,
        r matches Ok(d) ==> p_data(buf@) == Some(d.view_groups()),
{
    let (ng64, start) = match read_u64(buf, 0) {
        Some(p) => p,
        None => {
            return Err(CodecError::Truncated);
        },
    };
    if ng64 > usize::MAX as u64 {
        return Err(CodecError::Oversized);
    }
    let n = ng64 as usize;
    let mut groups: Vec<(u64, Vec<Vec<Value>>)> = Vec::new();
    let mut cur: usize = start;
    let ghost gview = |g: (u64, Vec<Vec<Value>>)| (g.0, g.1@.map_values(|row: Vec<Value>| row@));
    for i in 0..n
        invariant
            groups@.len() == i,
            p_u64(buf@, 0) == Some((ng64, start as int)),
            ng64 <= usize::MAX,
            n == ng64,
            gview == (|g: (u64, Vec<Vec<Value>>)| (g.0, g.1@.map_values(|row: Vec<Value>| row@))),
            p_groups(buf@, start as int, n as nat) == (match p_groups(
                buf@,
                cur as int,
                (n - i) as nat,
            ) {
                Option::Some((rest, end)) => Option::Some((groups@.map_values(gview) + rest, end)),
                Option::None => Option::None::<(Seq<(u64, Seq<Seq<Value>>)>, int)>,
            }),
    {
        let ghost groups_pre = groups@.map_values(gview);
        match read_group(buf, cur) {
            Ok((g, next)) => {
                let ghost gv = (g.0, g.1@.map_values(|row: Vec<Value>| row@));
                groups.push(g);
                cur = next;
                proof {
                    assert(groups@.map_values(gview) =~= groups_pre.push(gv));
                    assert forall|rest: Seq<(u64, Seq<Seq<Value>>)>| true implies groups_pre + (
                    seq![gv] + rest) == groups_pre.push(gv) + rest by {
                        assert(groups_pre + (seq![gv] + rest) =~= groups_pre.push(gv) + rest);
                    }
                }
            },
            Err(e) => {
                proof {
                    assert(p_groups(buf@, cur as int, (n - i) as nat) is None);
                }
                return Err(e);
            },
        }
    }
    if cur != buf.len() {
        proof {
            assert(p_groups(buf@, cur as int, 0) == Some((
                Seq::<(u64, Seq<Seq<Value>>)>::empty(),
                cur as int,
            )));
        }
        return Err(CodecError::TrailingBytes);
    }
    proof {
        assert(p_groups(buf@, cur as int, 0) == Some((
            Seq::<(u64, Seq<Seq<Value>>)>::empty(),
            cur as int,
        )));
        assert(groups@.map_values(gview) + Seq::<(u64, Seq<Seq<Value>>)>::empty()
            =~= groups@.map_values(gview));
    }
    let d = SceneData { groups };
    proof {
        assert(d.view_groups() =~= d.groups@.map_values(gview));
    }
    Ok(d)
}


/// A subrange that equals a concatenation splits at the seam.
proof fn lemma_subrange_slice(bs: Seq<u8>, pos: int, total: int, a: Seq<u8>, b: Seq<u8>)
    requires
        0 <= pos,
        pos + total <= bs.len(),
        total == a.len() + b.len(),
        bs.subrange(pos, pos + total) == a + b,
    ensures
        bs.subrange(pos, pos + a.len()) == a,
        bs.subrange(pos + a.len(), pos + total) == b,
{
    assert forall|i: int| 0 <= i < a.len() implies bs.subrange(pos, pos + a.len() as int)[i]
        == a[i] by {
        assert(bs.subrange(pos, pos + total)[i] == (a + b)[i]);
    }
    assert(bs.subrange(pos, pos + a.len() as int) =~= a);
    assert forall|i: int| 0 <= i < b.len() implies bs.subrange(
        pos + a.len(),
        pos + total,
    )[i] == b[i] by {
        assert(bs.subrange(pos, pos + total)[a.len() + i] == (a + b)[a.len() + i]);
        assert(bs.subrange(pos, pos + total)[a.len() + i] == bs[pos + a.len() + i]);
        assert((a + b)[a.len() + i] == b[i]);
        assert(bs.subrange(pos + a.len() as int, pos + total)[i] == bs[pos + a.len() + i]);
    }
    assert(bs.subrange(pos + a.len() as int, pos + total) =~= b);
}

proof fn lemma_p_u64_at(bs: Seq<u8>, pos: int, x: u64)
    requires
        0 <= pos,
        pos + 8 <= bs.len(),
        bs.subrange(pos, pos + 8) == le(x),
    ensures
        p_u64(bs, pos) == Some((x, pos + 8)),
{
    lemma_le_round_trip(x);
}

proof fn lemma_p_value_at(bs: Seq<u8>, pos: int, v: Value)
    requires
        0 <= pos,
        pos + 9 <= bs.len(),
        bs.subrange(pos, pos + 9) == val_bytes(v),
    ensures
        p_value(bs, pos) == Some((v, pos + 9)),
{
    lemma_subrange_slice(bs, pos, 9, seq![tag_of(v)], le(payload_of(v)));
    assert(bs[pos] == bs.subrange(pos, pos + 1)[0]);
    lemma_le_round_trip(payload_of(v));
    match v {
        Value::Int(x) => {
            assert((x as u64) as i64 == x) by (bit_vector);
        },
        Value::UInt(_) => {},
        Value::Bool(_) => {},
    }
}

proof fn lemma_p_vals_of(bs: Seq<u8>, pos: int, row: Seq<Value>)
    requires
        0 <= pos,
        pos + vals_bytes(row).len() <= bs.len(),
        bs.subrange(pos, pos + vals_bytes(row).len()) == vals_bytes(row),
    ensures
        p_vals(bs, pos, row.len()) == Some((row, pos + vals_bytes(row).len())),
    decreases row.len(),
{
    if row.len() == 0 {
        assert(row =~= Seq::<Value>::empty());
    } else {
        let rest = row.skip(1);
        assert(vals_bytes(row) == val_bytes(row[0]) + vals_bytes(rest));
        assert(val_bytes(row[0]).len() == 9);
        let total = vals_bytes(row).len() as int;
        assert(total == 9 + vals_bytes(rest).len());
        lemma_subrange_slice(bs, pos, total, val_bytes(row[0]), vals_bytes(rest));
        lemma_p_value_at(bs, pos, row[0]);
        lemma_p_vals_of(bs, pos + 9, rest);
        assert(seq![row[0]] + rest =~= row);
    }
}

proof fn lemma_p_row_of(bs: Seq<u8>, pos: int, row: Seq<Value>)
    requires
        0 <= pos,
        pos + row_bytes(row).len() <= bs.len(),
        bs.subrange(pos, pos + row_bytes(row).len()) == row_bytes(row),
        row.len() <= usize::MAX,
    ensures
        p_row(bs, pos) == Some((row, pos + row_bytes(row).len())),
{
    let total = row_bytes(row).len() as int;
    assert(total == 8 + vals_bytes(row).len());
    lemma_subrange_slice(bs, pos, total, le(row.len() as u64), vals_bytes(row));
    lemma_p_u64_at(bs, pos, row.len() as u64);
    lemma_p_vals_of(bs, pos + 8, row);
    assert((row.len() as u64) as nat == row.len());
}

proof fn lemma_p_rows_of(bs: Seq<u8>, pos: int, rows: Seq<Seq<Value>>)
    requires
        0 <= pos,
        pos + rows_bytes(rows).len() <= bs.len(),
        bs.subrange(pos, pos + rows_bytes(rows).len()) == rows_bytes(rows),
        forall|j: int| 0 <= j < rows.len() ==> (#[trigger] rows[j]).len() <= usize::MAX,
    ensures
        p_rows(bs, pos, rows.len()) == Some((rows, pos + rows_bytes(rows).len())),
    decreases rows.len(),
{
    if rows.len() == 0 {
        assert(rows =~= Seq::<Seq<Value>>::empty());
    } else {
        let rest = rows.skip(1);
        assert(rows_bytes(rows) == row_bytes(rows[0]) + rows_bytes(rest));
        let head = row_bytes(rows[0]).len() as int;
        let total = rows_bytes(rows).len() as int;
        assert(total == head + rows_bytes(rest).len());
        lemma_subrange_slice(bs, pos, total, row_bytes(rows[0]), rows_bytes(rest));
        lemma_p_row_of(bs, pos, rows[0]);
        assert(forall|j: int| 0 <= j < rest.len() ==> (#[trigger] rest[j]).len() <= usize::MAX);
        lemma_p_rows_of(bs, pos + head, rest);
        assert(seq![rows[0]] + rest =~= rows);
    }
}

proof fn lemma_p_group_of(bs: Seq<u8>, pos: int, g: (u64, Seq<Seq<Value>>))
    requires
        0 <= pos,
        pos + group_bytes(g).len() <= bs.len(),
        bs.subrange(pos, pos + group_bytes(g).len()) == group_bytes(g),
        g.1.len() <= usize::MAX,
        forall|j: int| 0 <= j < g.1.len() ==> (#[trigger] g.1[j]).len() <= usize::MAX,
    ensures
        p_group(bs, pos) == Some((g, pos + group_bytes(g).len())),
{
    let total = group_bytes(g).len() as int;
    assert(total == 16 + rows_bytes(g.1).len());
    assert(group_bytes(g) == (le(g.0) + le(g.1.len() as u64)) + rows_bytes(g.1)) by {
        assert(group_bytes(g) =~= (le(g.0) + le(g.1.len() as u64)) + rows_bytes(g.1));
    }
    lemma_subrange_slice(bs, pos, total, le(g.0) + le(g.1.len() as u64), rows_bytes(g.1));
    lemma_subrange_slice(bs, pos, 16, le(g.0), le(g.1.len() as u64));
    lemma_p_u64_at(bs, pos, g.0);
    lemma_p_u64_at(bs, pos + 8, g.1.len() as u64);
    lemma_p_rows_of(bs, pos + 16, g.1);
    assert((g.1.len() as u64) as nat == g.1.len());
}

proof fn lemma_p_groups_of(bs: Seq<u8>, pos: int, gs: Seq<(u64, Seq<Seq<Value>>)>)
    requires
        0 <= pos,
        pos + groups_bytes(gs).len() <= bs.len(),
        bs.subrange(pos, pos + groups_bytes(gs).len()) == groups_bytes(gs),
        forall|i: int| 0 <= i < gs.len() ==> (#[trigger] gs[i]).1.len() <= usize::MAX,
        forall|i: int, j: int|
            0 <= i < gs.len() && 0 <= j < gs[i].1.len() ==> (#[trigger] gs[i].1[j]).len()
                <= usize::MAX,
    ensures
        p_groups(bs, pos, gs.len()) == Some((gs, pos + groups_bytes(gs).len())),
    decreases gs.len(),
{
    if gs.len() == 0 {
        assert(gs =~= Seq::<(u64, Seq<Seq<Value>>)>::empty());
    } else {
        let rest = gs.skip(1);
        assert(groups_bytes(gs) == group_bytes(gs[0]) + groups_bytes(rest));
        let head = group_bytes(gs[0]).len() as int;
        let total = groups_bytes(gs).len() as int;
        assert(total == head + groups_bytes(rest).len());
        lemma_subrange_slice(bs, pos, total, group_bytes(gs[0]), groups_bytes(rest));
        lemma_p_group_of(bs, pos, gs[0]);
        assert(forall|i: int| 0 <= i < rest.len() ==> (#[trigger] rest[i]).1.len() <= usize::MAX);
        assert forall|i: int, j: int|
            0 <= i < rest.len() && 0 <= j < rest[i].1.len() implies (#[trigger] rest[i].1[j]).len()
            <= usize::MAX by {
            assert(rest[i] == gs[i + 1]);
            assert(gs[i + 1].1[j].len() <= usize::MAX);
        }
        lemma_p_groups_of(bs, pos + head, rest);
        assert(seq![gs[0]] + rest =~= gs);
    }
}

/// The codec round trip: decoding an encoded scene yields the scene.  For
/// any groups that fit this machine, the bytes [`encode`] emits for them
/// parse back, whole, to exactly those groups — so, with the contracts of
/// [`encode`] and [`decode`], a decode of an encode returns the original
/// scene data.
pub proof fn lemma_codec_round_trip(gs: Seq<(u64, Seq<Seq<Value>>)>)
    requires
        gs.len() <= usize::MAX,
        forall|i: int| 0 <= i < gs.len() ==> (#[trigger] gs[i]).1.len() <= usize::MAX,
        forall|i: int, j: int|
            0 <= i < gs.len() && 0 <= j < gs[i].1.len() ==> (#[trigger] gs[i].1[j]).len()
                <= usize::MAX,
    ensures
        p_data(data_bytes(gs)) == Some(gs),
{
    let bs = data_bytes(gs);
    assert(bs.len() == 8 + groups_bytes(gs).len());
    assert(bs.subrange(0, bs.len() as int) =~= bs);
    lemma_subrange_slice(bs, 0, bs.len() as int, le(gs.len() as u64), groups_bytes(gs));
    lemma_p_u64_at(bs, 0, gs.len() as u64);
    lemma_p_groups_of(bs, 8, gs);
    assert((gs.len() as u64) as nat == gs.len());
}

} // verus!
