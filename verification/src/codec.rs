//! A flat integer encoding of recorded games, with a proved round trip:
//! parsing a serialised simulation gives back the same outcome, boards,
//! values and policy targets.
//!
//! The stream layout is `[outcome, n]` followed by `n` position records;
//! a record is `[board_len] board-words [value+1] [policy_len]` followed
//! by one `[move, visits]` pair per policy entry.
use vstd::prelude::*;

use crate::board::Board;
use crate::board::Outcome;
use crate::board::Player;
use crate::selfplay::Position;
use crate::selfplay::Simulation;
use crate::selfplay::position_ok;

verus! {

/// The integer code of an outcome.
pub open spec fn spec_outcome_code(o: Outcome) -> u64 {
    match o {
        Outcome::Draw => 0u64,
        Outcome::WonBy(Player::A) => 1u64,
        Outcome::WonBy(Player::B) => 2u64,
    }
}

/// The outcome a code stands for.
pub open spec fn spec_code_outcome(c: u64) -> Option<Outcome> {
    if c == 0 {
        Some(Outcome::Draw)
    } else if c == 1 {
        Some(Outcome::WonBy(Player::A))
    } else if c == 2 {
        Some(Outcome::WonBy(Player::B))
    } else {
        None
    }
}

/// The encoded policy pairs from entry `i` on: two words per pair.
pub open spec fn spec_encode_pairs(ps: Seq<(u64, u64)>, i: int) -> Seq<u64>
    decreases ps.len() - i,
{
    if i < 0 || i >= ps.len() {
        Seq::empty()
    } else {
        seq![ps[i].0, ps[i].1] + spec_encode_pairs(ps, i + 1)
    }
}

/// The encoded form of one position record.
pub open spec fn spec_encode_position<B: Board>(p: Position<B>) -> Seq<u64> {
    seq![p.board.spec_encode().len() as u64] + p.board.spec_encode() + seq![
        (p.value + 1) as u64,
        p.policy@.len() as u64,
    ] + spec_encode_pairs(p.policy@, 0)
}

/// The encoded position records from index `i` on.
pub open spec fn spec_encode_positions<B: Board>(ps: Seq<Position<B>>, i: int) -> Seq<u64>
    decreases ps.len() - i,
{
    if i < 0 || i >= ps.len() {
        Seq::empty()
    } else {
        spec_encode_position(ps[i]) + spec_encode_positions(ps, i + 1)
    }
}

/// The encoded form of a whole simulation.
pub open spec fn spec_encode_simulation<B: Board>(s: Simulation<B>) -> Seq<u64> {
    seq![spec_outcome_code(s.outcome), s.positions@.len() as u64] + spec_encode_positions(
        s.positions@,
        0,
    )
}

/// A simulation the codec accepts: coherent positions whose board
/// encodings and policies fit the length words.
pub open spec fn codec_input_ok<B: Board>(s: Simulation<B>) -> bool {
    &&& s.positions@.len() <= u64::MAX
    &&& forall|i: int|
        0 <= i < s.positions@.len() ==> position_ok(#[trigger] s.positions@[i])
            && s.positions@[i].board.spec_encode().len() <= u64::MAX && s.positions@[
            i].policy@.len() <= u64::MAX
}

/// Serialise `sim` into a flat word stream.
pub fn serialize_simulation<B: Board>(sim: &Simulation<B>) -> (r: Vec<u64>)
    requires
        codec_input_ok(*sim),
    ensures
        r@ == spec_encode_simulation(*sim),
{
    let mut out: Vec<u64> = Vec::new();
    let code: u64 = match sim.outcome {
        Outcome::Draw => 0,
        Outcome::WonBy(Player::A) => 1,
        Outcome::WonBy(Player::B) => 2,
    };
    out.push(code);
    out.push(sim.positions.len() as u64);
    proof {
        assert(out@ + spec_encode_positions(sim.positions@, 0) =~= spec_encode_simulation(*sim));
    }
    let mut i: usize = 0;
    while i < sim.positions.len()
        invariant
            i <= sim.positions@.len(),
            codec_input_ok(*sim),
            out@ + spec_encode_positions(sim.positions@, i as int) == spec_encode_simulation(
                *sim,
            ),
        decreases sim.positions@.len() - i,
    {
        let ghost out_head: Seq<u64> = out@;
        let p = &sim.positions[i];
        proof {
            assert(position_ok(sim.positions@[i as int]));
        }
        let enc = p.board.encode();
        out.push(enc.len() as u64);
        let mut b: usize = 0;
        while b < enc.len()
            invariant
                b <= enc@.len(),
                out@ == out_head + seq![enc@.len() as u64] + enc@.subrange(0, b as int),
            decreases enc@.len() - b,
        {
            out.push(enc[b]);
            proof {
                assert(enc@.subrange(0, b + 1) =~= enc@.subrange(0, b as int).push(
                    enc@[b as int],
                ));
            }
            b = b + 1;
        }
        proof {
            assert(enc@.subrange(0, enc@.len() as int) =~= enc@);
        }
        out.push((p.value + 1) as u64);
        out.push(p.policy.len() as u64);
        let ghost pairs_head: Seq<u64> = out@;
        let mut k: usize = 0;
        while k < p.policy.len()
            invariant
                k <= p.policy@.len(),
                out@ + spec_encode_pairs(p.policy@, k as int) == pairs_head + spec_encode_pairs(
                    p.policy@,
                    0,
                ),
            decreases p.policy@.len() - k,
        {
            out.push(p.policy[k].0);
            out.push(p.policy[k].1);
            proof {
                assert(out@ + spec_encode_pairs(p.policy@, k + 1) =~= pairs_head
                    + spec_encode_pairs(p.policy@, 0));
            }
            k = k + 1;
        }
        proof {
            assert(out@ =~= pairs_head + spec_encode_pairs(p.policy@, 0));
            assert(out@ =~= out_head + spec_encode_position(sim.positions@[i as int]));
            assert(out@ + spec_encode_positions(sim.positions@, i + 1) =~= out_head
                + spec_encode_positions(sim.positions@, i as int));
        }
        i = i + 1;
    }
    proof {
        assert(out@ =~= spec_encode_simulation(*sim));
    }
    out
}

/// Parse `n` policy pairs at cursor `at`; `None` if the stream is short.
pub open spec fn spec_parse_pairs(d: Seq<u64>, at: int, n: int) -> Option<(Seq<(u64, u64)>, int)>
    decreases n,
{
    if n <= 0 {
        Some((Seq::empty(), at))
    } else if at + 2 <= d.len() {
        match spec_parse_pairs(d, at + 2, n - 1) {
            Some(r) => Some((seq![(d[at], d[at + 1])] + r.0, r.1)),
            None => None,
        }
    } else {
        None
    }
}

/// Parse one position record at cursor `at`, as a `(board, value,
/// policy)` triple plus the new cursor.
pub open spec fn spec_parse_position<B: Board>(d: Seq<u64>, at: int) -> Option<
    ((B, int, Seq<(u64, u64)>), int),
> {
    if 0 <= at < d.len() {
        let blen = d[at] as int;
        if at + 3 + blen <= d.len() {
            match B::spec_decode(d.subrange(at + 1, at + 1 + blen)) {
                Some(board) => {
                    let vcode = d[at + 1 + blen];
                    let plen = d[at + 2 + blen] as int;
                    if vcode <= 2 {
                        match spec_parse_pairs(d, at + 3 + blen, plen) {
                            Some(r) => Some(((board, vcode as int - 1, r.0), r.1)),
                            None => None,
                        }
                    } else {
                        None
                    }
                },
                None => None,
            }
        } else {
            None
        }
    } else {
        None
    }
}

/// Parse `n` position records at cursor `at`.
pub open spec fn spec_parse_positions<B: Board>(d: Seq<u64>, at: int, n: int) -> Option<
    (Seq<(B, int, Seq<(u64, u64)>)>, int),
>
    decreases n,
{
    if n <= 0 {
        Some((Seq::empty(), at))
    } else {
        match spec_parse_position::<B>(d, at) {
            Some(r) => match spec_parse_positions::<B>(d, r.1, n - 1) {
                Some(r2) => Some((seq![r.0] + r2.0, r2.1)),
                None => None,
            },
            None => None,
        }
    }
}

/// Parse a whole stream; the stream must be consumed exactly.
pub open spec fn spec_parse_simulation<B: Board>(d: Seq<u64>) -> Option<
    (Outcome, Seq<(B, int, Seq<(u64, u64)>)>),
> {
    if d.len() >= 2 {
        match spec_code_outcome(d[0]) {
            Some(oc) => match spec_parse_positions::<B>(d, 2, d[1] as int) {
                Some(r) => if r.1 == d.len() {
                    Some((oc, r.0))
                } else {
                    None
                },
                None => None,
            },
            None => None,
        }
    } else {
        None
    }
}

/// The `(board, value, policy)` triples of a recorded game.
pub open spec fn position_models<B: Board>(ps: Seq<Position<B>>) -> Seq<(B, int, Seq<(u64, u64)>)> {
    ps.map_values(|p: Position<B>| (p.board, p.value as int, p.policy@))
}

/// Parse `n` policy pairs at cursor `at`, exactly as the spec parser.
fn parse_pairs(data: &Vec<u64>, at: usize, n: u64) -> (r: Option<(Vec<(u64, u64)>, usize)>)
    requires
        at <= data@.len(),
    ensures
        match r {
            Some(v) => spec_parse_pairs(data@, at as int, n as int) == Some(
                (v.0@, v.1 as int),
            ) && v.1 <= data@.len(),
            None => spec_parse_pairs(data@, at as int, n as int) is None,
        },
    decreases n,
{
    if n == 0 {
        Some((Vec::new(), at))
    } else if data.len() - at >= 2 {
        let pair: (u64, u64) = (data[at], data[at + 1]);
        match parse_pairs(data, at + 2, n - 1) {
            Some((mut rest, end)) => {
                rest.insert(0, pair);
                proof {
                    assert(rest@ =~= seq![(data@[at as int], data@[at as int + 1])]
                        + rest@.drop_first());
                }
                Some((rest, end))
            },
            None => None,
        }
    } else {
        None
    }
}

/// Parse one position record at cursor `at`, exactly as the spec parser.
fn parse_position<B: Board>(data: &Vec<u64>, at: usize) -> (r: Option<(Position<B>, usize)>)
    ensures
        match r {
            Some(v) => spec_parse_position::<B>(data@, at as int) == Some(
                ((v.0.board, v.0.value as int, v.0.policy@), v.1 as int),
            ) && v.1 <= data@.len(),
            None => spec_parse_position::<B>(data@, at as int) is None,
        },
{
    if at >= data.len() {
        return None;
    }
    let blen64: u64 = data[at];
    if (at as u128) + 3 + (blen64 as u128) > (data.len() as u128) {
        return None;
    }
    let blen: usize = blen64 as usize;
    let mut bwords: Vec<u64> = Vec::new();
    let mut b: usize = 0;
    while b < blen
        invariant
            b <= blen,
            at + 3 + blen <= data@.len(),
            bwords@ == data@.subrange(at + 1, at + 1 + b),
        decreases blen - b,
    {
        bwords.push(data[at + 1 + b]);
        proof {
            assert(data@.subrange(at + 1, at + 1 + b + 1) =~= data@.subrange(
                at + 1,
                at + 1 + b,
            ).push(data@[at + 1 + b]));
        }
        b = b + 1;
    }
    let board: B = match B::decode(&bwords) {
        Some(board) => board,
        None => {
            return None;
        },
    };
    let vcode: u64 = data[at + 1 + blen];
    if vcode > 2 {
        return None;
    }
    let plen: u64 = data[at + 2 + blen];
    match parse_pairs(data, at + 3 + blen, plen) {
        Some((policy, end)) => {
            let value: i64 = (vcode as i64) - 1;
            Some((Position { board, value, policy }, end))
        },
        None => None,
    }
}

/// Parse `n` position records at cursor `at`, exactly as the spec parser.
fn parse_positions<B: Board>(data: &Vec<u64>, at: usize, n: u64) -> (r: Option<
    (Vec<Position<B>>, usize),
>)
    requires
        at <= data@.len(),
    ensures
        match r {
            Some(v) => spec_parse_positions::<B>(data@, at as int, n as int) == Some(
                (position_models(v.0@), v.1 as int),
            ) && v.1 <= data@.len(),
            None => spec_parse_positions::<B>(data@, at as int, n as int) is None,
        },
    decreases n,
{
    if n == 0 {
        proof {
            assert(position_models(Seq::<Position<B>>::empty()) =~= Seq::<
                (B, int, Seq<(u64, u64)>),
            >::empty());
        }
        Some((Vec::new(), at))
    } else {
        match parse_position::<B>(data, at) {
            Some((p, next)) => match parse_positions::<B>(data, next, n - 1) {
                Some((mut rest, end)) => {
                    let ghost rest_models: Seq<(B, int, Seq<(u64, u64)>)> = position_models(
                        rest@,
                    );
                    let ghost pm: (B, int, Seq<(u64, u64)>) = (p.board, p.value as int, p.policy@);
                    rest.insert(0, p);
                    proof {
                        assert(position_models(rest@) =~= seq![pm] + rest_models);
                    }
                    Some((rest, end))
                },
                None => None,
            },
            None => None,
        }
    }
}

/// Parse a serialised simulation; `None` on any malformed stream.
pub fn parse_simulation<B: Board>(data: &Vec<u64>) -> (r: Option<Simulation<B>>)
    ensures
        match r {
            Some(s) => spec_parse_simulation::<B>(data@) == Some(
                (s.outcome, position_models(s.positions@)),
            ),
            None => spec_parse_simulation::<B>(data@) is None,
        },
{
    if data.len() < 2 {
        return None;
    }
    let code: u64 = data[0];
    let outcome: Outcome = if code == 0 {
        Outcome::Draw
    } else if code == 1 {
        Outcome::WonBy(Player::A)
    } else if code == 2 {
        Outcome::WonBy(Player::B)
    } else {
        return None;
    };
    let n: u64 = data[1];
    match parse_positions::<B>(data, 2, n) {
        Some((positions, end)) => {
            if end == data.len() {
                Some(Simulation { outcome, positions })
            } else {
                None
            }
        },
        None => None,
    }
}

/// The pair encoding takes two words per remaining pair.
pub proof fn lemma_encode_pairs_len(ps: Seq<(u64, u64)>, i: int)
    requires
        0 <= i <= ps.len(),
    ensures
        spec_encode_pairs(ps, i).len() == 2 * (ps.len() - i),
    decreases ps.len() - i,
{
    if i < ps.len() {
        lemma_encode_pairs_len(ps, i + 1);
    }
}

/// Parsing an encoded run of pairs embedded in a larger stream yields the
/// pairs back and stops right after them.
pub proof fn lemma_pairs_round_trip(d: Seq<u64>, at: int, ps: Seq<(u64, u64)>, i: int)
    requires
        0 <= i <= ps.len(),
        0 <= at,
        at + spec_encode_pairs(ps, i).len() <= d.len(),
        d.subrange(at, at + spec_encode_pairs(ps, i).len()) == spec_encode_pairs(ps, i),
    ensures
        spec_parse_pairs(d, at, ps.len() - i) == Some(
            (ps.skip(i), at + spec_encode_pairs(ps, i).len()),
        ),
    decreases ps.len() - i,
{
    lemma_encode_pairs_len(ps, i);
    if i == ps.len() {
        assert(ps.skip(i) =~= Seq::<(u64, u64)>::empty());
    } else {
        lemma_encode_pairs_len(ps, i + 1);
        let e = spec_encode_pairs(ps, i);
        assert(e[0] == ps[i].0);
        assert(e[1] == ps[i].1);
        assert(d[at] == ps[i].0) by {
            assert(d.subrange(at, at + e.len())[0] == d[at]);
        }
        assert(d[at + 1] == ps[i].1) by {
            assert(d.subrange(at, at + e.len())[1] == d[at + 1]);
        }
        assert(d.subrange(at + 2, at + 2 + spec_encode_pairs(ps, i + 1).len()) =~= spec_encode_pairs(
            ps,
            i + 1,
        )) by {
            assert forall|q: int|
                0 <= q < spec_encode_pairs(ps, i + 1).len() implies d.subrange(
                at + 2,
                at + 2 + spec_encode_pairs(ps, i + 1).len(),
            )[q] == (#[trigger] spec_encode_pairs(ps, i + 1)[q]) by {
                assert(d.subrange(at, at + e.len())[q + 2] == d[at + 2 + q]);
                assert(e[q + 2] == spec_encode_pairs(ps, i + 1)[q]);
            }
        }
        lemma_pairs_round_trip(d, at + 2, ps, i + 1);
        assert(seq![(d[at], d[at + 1])] + ps.skip(i + 1) =~= ps.skip(i));
    }
}

/// Parsing an encoded position record embedded in a larger stream yields
/// its model back and stops right after it.
pub proof fn lemma_position_round_trip<B: Board>(d: Seq<u64>, at: int, p: Position<B>)
    requires
        position_ok(p),
        p.board.spec_encode().len() <= u64::MAX,
        p.policy@.len() <= u64::MAX,
        0 <= at,
        at + spec_encode_position(p).len() <= d.len(),
        d.subrange(at, at + spec_encode_position(p).len()) == spec_encode_position(p),
    ensures
        spec_parse_position::<B>(d, at) == Some(
            ((p.board, p.value as int, p.policy@), at + spec_encode_position(p).len()),
        ),
{
    let e = spec_encode_position(p);
    let benc = p.board.spec_encode();
    let blen = benc.len() as int;
    lemma_encode_pairs_len(p.policy@, 0);
    assert(e.len() == 3 + blen + 2 * p.policy@.len());
    assert forall|q: int| 0 <= q < e.len() implies d[at + q] == e[q] by {
        assert(d.subrange(at, at + e.len())[q] == d[at + q]);
    }
    assert(d[at + 0] == e[0]);
    assert(e[0] == blen as u64);
    assert(d[at] == blen as u64);
    assert(d[at] as int == blen);
    assert(d.subrange(at + 1, at + 1 + blen) =~= benc) by {
        assert forall|q: int|
            0 <= q < blen implies d.subrange(at + 1, at + 1 + blen)[q] == (#[trigger] benc[
            q]) by {
            assert(d[at + 1 + q] == e[1 + q]);
            assert(e[1 + q] == benc[q]);
        }
    }
    p.board.lemma_codec();
    assert(B::spec_decode(d.subrange(at + 1, at + 1 + blen)) == Some(p.board));
    assert(d[at + (1 + blen)] == e[1 + blen]);
    assert(e[1 + blen] == (p.value + 1) as u64);
    assert(d[at + 1 + blen] == (p.value + 1) as u64);
    assert(d[at + (2 + blen)] == e[2 + blen]);
    assert(e[2 + blen] == p.policy@.len() as u64);
    assert(d[at + 2 + blen] == p.policy@.len() as u64);
    assert(d.subrange(
        at + 3 + blen,
        at + 3 + blen + spec_encode_pairs(p.policy@, 0).len(),
    ) =~= spec_encode_pairs(p.policy@, 0)) by {
        assert forall|q: int|
            0 <= q < spec_encode_pairs(p.policy@, 0).len() implies d.subrange(
            at + 3 + blen,
            at + 3 + blen + spec_encode_pairs(p.policy@, 0).len(),
        )[q] == (#[trigger] spec_encode_pairs(p.policy@, 0)[q]) by {
            assert(d[at + 3 + blen + q] == e[3 + blen + q]);
            assert(e[3 + blen + q] == spec_encode_pairs(p.policy@, 0)[q]);
        }
    }
    lemma_pairs_round_trip(d, at + 3 + blen, p.policy@, 0);
    assert(p.policy@.skip(0) =~= p.policy@);
}

/// Parsing the encoded records `ps[i..]` embedded in a larger stream
/// yields their models back.
pub proof fn lemma_positions_round_trip<B: Board>(d: Seq<u64>, at: int, ps: Seq<Position<B>>, i: int)
    requires
        0 <= i <= ps.len(),
        forall|j: int|
            0 <= j < ps.len() ==> position_ok(#[trigger] ps[j]) && ps[j].board.spec_encode().len()
                <= u64::MAX && ps[j].policy@.len() <= u64::MAX,
        0 <= at,
        at + spec_encode_positions(ps, i).len() <= d.len(),
        d.subrange(at, at + spec_encode_positions(ps, i).len()) == spec_encode_positions(ps, i),
    ensures
        spec_parse_positions::<B>(d, at, ps.len() - i) == Some(
            (
                position_models(ps).skip(i),
                at + spec_encode_positions(ps, i).len(),
            ),
        ),
    decreases ps.len() - i,
{
    if i == ps.len() {
        assert(position_models(ps).skip(i) =~= Seq::<(B, int, Seq<(u64, u64)>)>::empty());
    } else {
        let e = spec_encode_positions(ps, i);
        let e0 = spec_encode_position(ps[i]);
        let e1 = spec_encode_positions(ps, i + 1);
        assert(e == e0 + e1);
        assert(d.subrange(at, at + e0.len()) =~= e0) by {
            assert forall|q: int|
                0 <= q < e0.len() implies d.subrange(at, at + e0.len())[q] == (#[trigger] e0[
                q]) by {
                assert(d.subrange(at, at + e.len())[q] == d[at + q]);
                assert(e[q] == e0[q]);
            }
        }
        lemma_position_round_trip(d, at, ps[i]);
        assert(d.subrange(at + e0.len(), at + e0.len() + e1.len()) =~= e1) by {
            assert forall|q: int|
                0 <= q < e1.len() implies d.subrange(at + e0.len(), at + e0.len() + e1.len())[q]
                    == (#[trigger] e1[q]) by {
                assert(d.subrange(at, at + e.len())[e0.len() + q] == d[at + e0.len() + q]);
                assert(e[e0.len() + q] == e1[q]);
            }
        }
        lemma_positions_round_trip(d, at + e0.len(), ps, i + 1);
        assert(seq![(ps[i].board, ps[i].value as int, ps[i].policy@)] + position_models(ps).skip(
            i + 1,
        ) =~= position_models(ps).skip(i));
    }
}

/// The round trip: parsing a serialised simulation yields exactly its
/// outcome and its positions' boards, values and policy targets.
pub proof fn lemma_simulation_round_trip<B: Board>(sim: Simulation<B>)
    requires
        codec_input_ok(sim),
    ensures
        spec_parse_simulation::<B>(spec_encode_simulation(sim)) == Some(
            (sim.outcome, position_models(sim.positions@)),
        ),
{
    let d = spec_encode_simulation(sim);
    let body = spec_encode_positions(sim.positions@, 0);
    assert(d.len() == 2 + body.len());
    assert(d[0] == spec_outcome_code(sim.outcome));
    assert(spec_code_outcome(spec_outcome_code(sim.outcome)) == Some(sim.outcome));
    assert(d[1] == sim.positions@.len() as u64);
    assert(d.subrange(2, 2 + body.len() as int) =~= body) by {
        assert forall|q: int|
            0 <= q < body.len() implies d.subrange(2, 2 + body.len() as int)[q] == (
        #[trigger] body[q]) by {
            assert(d[2 + q] == body[q]);
        }
    }
    lemma_positions_round_trip(d, 2, sim.positions@, 0);
    assert(position_models(sim.positions@).skip(0) =~= position_models(sim.positions@));
}

} // verus!
