//! The marble game: players place numbered marbles clockwise around a
//! circle; every twenty-third marble scores instead, together with the
//! marble seven places counter-clockwise, which is removed.

use vstd::prelude::*;

verus! {

/// The circle position one step counter-clockwise of `i`.
pub open spec fn prev_idx(i: int, len: int) -> int {
    if i == 0 {
        len - 1
    } else {
        i - 1
    }
}

/// The position seven steps counter-clockwise of the current cursor; a
/// cursor resting past the end steps first onto the last marble.
pub open spec fn back_seven(cur: int, len: int) -> int {
    if cur == -1 {
        prev_idx(
            prev_idx(prev_idx(prev_idx(prev_idx(prev_idx(len - 1, len), len), len), len), len),
            len,
        )
    } else {
        prev_idx(
            prev_idx(
                prev_idx(prev_idx(prev_idx(prev_idx(prev_idx(cur, len), len), len), len), len),
                len,
            ),
            len,
        )
    }
}

/// The game state after `m` marbles have been played: the circle of
/// marbles, the cursor (the index of the current marble, or -1 when the
/// cursor rests past the end), and each player's score.
pub open spec fn marble_state(players: nat, m: nat) -> (Seq<usize>, int, Seq<int>)
    decreases m,
{
    if m == 0 {
        (seq![0usize], 0int, Seq::new(players, |i: int| 0int))
    } else {
        let (circle, cur, scores) = marble_state(players, (m - 1) as nat);
        let len = circle.len() as int;
        let player = ((m - 1) as int) % (players as int);
        if m % 23 == 0 {
            let idx = back_seven(cur, len);
            let gained = m + circle[idx] as int;
            let scores2 = scores.update(player, scores[player] + gained);
            let circle2 = circle.remove(idx);
            let cur2 = if idx < len - 1 {
                idx
            } else {
                -1int
            };
            (circle2, cur2, scores2)
        } else {
            let n1 = if cur + 1 >= len {
                0int
            } else {
                cur + 1
            };
            (circle.insert(n1 + 1, m as usize), n1 + 1, scores)
        }
    }
}

/// The largest value in the sequence, or zero when it is empty.
pub open spec fn seq_max(s: Seq<int>) -> int
    decreases s.len(),
{
    if s.len() == 0 {
        0
    } else {
        let m = seq_max(s.drop_last());
        if s.last() > m {
            s.last()
        } else {
            m
        }
    }
}

/// The state after `m` marbles is well formed: the circle length follows
/// from the number of scoring marbles, the cursor is in range, every
/// marble is at most `m`, and every score is bounded.
proof fn lemma_marble_wf(players: nat, m: nat)
    requires
        players >= 1,
    ensures
        marble_state(players, m).0.len() == 1 + m - 2 * ((m as int) / 23),
        marble_state(players, m).0.len() >= 1,
        -1 <= marble_state(players, m).1 < marble_state(players, m).0.len(),
        forall|i: int|
            0 <= i < marble_state(players, m).0.len() ==> (#[trigger] marble_state(
                players,
                m,
            ).0[i]) <= m,
        marble_state(players, m).2.len() == players,
        forall|p: int|
            0 <= p < players ==> 0 <= (#[trigger] marble_state(players, m).2[p]) <= (m as int) * (
            m as int + 1),
        2 * ((m as int) / 23) <= m,
    decreases m,
{
    vstd::arithmetic::div_mod::lemma_fundamental_div_mod(m as int, 23);
    vstd::arithmetic::div_mod::lemma_mod_bound(m as int, 23);
    if m == 0 {
        assert(marble_state(players, 0).0 =~= seq![0usize]);
        assert((0int) / 23 == 0) by {
            vstd::arithmetic::div_mod::lemma_fundamental_div_mod_converse_div(0, 23, 0, 0);
        }
    } else {
        lemma_marble_wf(players, (m - 1) as nat);
        let (circle, cur, scores) = marble_state(players, (m - 1) as nat);
        let len = circle.len() as int;
        let player = ((m - 1) as int) % (players as int);
        vstd::arithmetic::div_mod::lemma_fundamental_div_mod((m - 1) as int, 23);
        vstd::arithmetic::div_mod::lemma_mod_bound((m - 1) as int, 23);
        vstd::arithmetic::div_mod::lemma_mod_bound((m - 1) as int, players as int);
        let dm = (m as int) / 23;
        let dp = ((m - 1) as int) / 23;
        if m % 23 == 0 {
            assert(dm == dp + 1) by {
                vstd::arithmetic::div_mod::lemma_fundamental_div_mod_converse_div(
                    (m - 1) as int,
                    23,
                    dm - 1,
                    22,
                );
            }
            assert(len == m + 2 - 2 * dm);
            assert(dm >= 1) by {
                if dm <= 0 {
                    assert(m as int == 23 * dm + 0);
                }
            }
            assert(len >= 9) by {
                assert(m as int == 23 * dm);
                assert(len == 23 * dm + 2 - 2 * dm);
                assert(23 * dm + 2 - 2 * dm == 21 * dm + 2) by (nonlinear_arith);
                assert(21 * dm >= 21) by (nonlinear_arith)
                    requires
                        dm >= 1,
                ;
            }
            let idx = back_seven(cur, len);
            assert(0 <= idx < len);
            let gained = m + circle[idx] as int;
            assert(0 <= gained <= 2 * (m as int));
            assert(forall|p: int|
                0 <= p < players ==> 0 <= (#[trigger] scores[p]) <= ((m - 1) as int) * (m as int));
            assert(scores[player] + gained <= ((m - 1) as int) * (m as int) + 2 * (m as int));
            assert(((m - 1) as int) * (m as int) + 2 * (m as int) <= (m as int) * (m as int + 1))
                by (nonlinear_arith)
                requires
                    m >= 1,
            ;
            assert(((m - 1) as int) * ((m - 1) as int + 1) == ((m - 1) as int) * (m as int));
            let circle2 = circle.remove(idx);
            assert(circle2.len() == len - 1);
            assert(forall|i: int|
                0 <= i < circle2.len() ==> (#[trigger] circle2[i]) == (if i < idx {
                    circle[i]
                } else {
                    circle[i + 1]
                }));
            assert(forall|i: int| 0 <= i < circle2.len() ==> (#[trigger] circle2[i]) <= m);
            assert(marble_state(players, m).0.len() == len - 1);
            assert(len - 1 == 1 + m - 2 * dm);
        } else {
            assert(dm == dp) by {
                assert(m % 23 != 0);
                vstd::arithmetic::div_mod::lemma_fundamental_div_mod_converse_div(
                    (m - 1) as int,
                    23,
                    dm,
                    (m as int) % 23 - 1,
                );
            }
            let n1 = if cur + 1 >= len {
                0int
            } else {
                cur + 1
            };
            assert(0 <= n1 < len);
            let circle2 = circle.insert(n1 + 1, m as usize);
            assert(circle2.len() == len + 1);
            assert(forall|i: int|
                0 <= i < circle2.len() ==> (#[trigger] circle2[i]) == (if i < n1 + 1 {
                    circle[i]
                } else if i == n1 + 1 {
                    m as usize
                } else {
                    circle[i - 1]
                }));
            assert(forall|i: int| 0 <= i < circle2.len() ==> (#[trigger] circle2[i]) <= m);
            assert(forall|p: int|
                0 <= p < players ==> 0 <= (#[trigger] marble_state(players, m).2[p]) <= ((m - 1) as int)
                    * (m as int));
            assert(((m - 1) as int) * (m as int) <= (m as int) * (m as int + 1))
                by (nonlinear_arith)
                requires
                    m >= 1,
            ;
        }
    }
}

/// Steps the cursor one position counter-clockwise.
fn step_back(idx: usize, len: usize) -> (r: usize)
    requires
        len >= 1,
        idx < len,
    ensures
        r as int == prev_idx(idx as int, len as int),
        r < len,
{
    if idx == 0 {
        len - 1
    } else {
        idx - 1
    }
}

/// Plays the marble game with the given number of marbles and players and
/// returns the highest score.
pub fn do_game(num_marbles: usize, players: usize) -> (r: usize)
    requires
        1 <= players,
        num_marbles <= 60000,
        players <= 100000,
    ensures
        r as int == seq_max(marble_state(players as nat, num_marbles as nat).2),
{
    let mut scores: Vec<usize> = vec![0; players];
    let mut circle: Vec<usize> = Vec::new();
    circle.push(0);
    let mut cur: usize = 0;
    let mut cur_null = false;
    let mut player: usize = 0;
    let mut m: usize = 1;
    proof {
        assert(circle@ =~= marble_state(players as nat, 0).0);
        assert(scores@.map_values(|v: usize| v as int) =~= marble_state(players as nat, 0).2);
        vstd::arithmetic::div_mod::lemma_small_mod(0, players as nat);
    }
    while m <= num_marbles
        invariant
            1 <= players <= 100000,
            num_marbles <= 60000,
            1 <= m <= num_marbles + 1,
            player == ((m - 1) as int) % (players as int),
            player < players,
            scores@.len() == players,
            circle@ == marble_state(players as nat, (m - 1) as nat).0,
            (if cur_null {
                -1int
            } else {
                cur as int
            }) == marble_state(players as nat, (m - 1) as nat).1,
            !cur_null ==> cur < circle@.len(),
            scores@.map_values(|v: usize| v as int) == marble_state(players as nat, (m - 1) as nat).2,
        decreases num_marbles + 1 - m,
    {
        proof {
            lemma_marble_wf(players as nat, (m - 1) as nat);
            lemma_marble_wf(players as nat, m as nat);
        }
        let len = circle.len();
        if m % 23 == 0 {
            let start = if cur_null {
                len - 1
            } else {
                step_back(cur, len)
            };
            let i1 = step_back(start, len);
            let i2 = step_back(i1, len);
            let i3 = step_back(i2, len);
            let i4 = step_back(i3, len);
            let i5 = step_back(i4, len);
            let idx = step_back(i5, len);
            proof {
                assert(idx as int == back_seven(
                    marble_state(players as nat, (m - 1) as nat).1,
                    len as int,
                ));
            }
            let taken = circle.remove(idx);
            let gained = m + taken;
            let old_score = scores[player];
            proof {
                assert(old_score as int == marble_state(players as nat, (m - 1) as nat).2[player as int]);
                assert(old_score + gained <= (m as int) * (m as int + 1)) by {
                    assert(marble_state(players as nat, m as nat).2[player as int] <= (m as int) * (
                    m as int + 1));
                }
                assert((m as int) * (m as int + 1) <= 60000 * 60001) by (nonlinear_arith)
                    requires
                        1 <= m <= 60000,
                ;
            }
            scores[player] = old_score + gained;
            if idx < len - 1 {
                cur = idx;
                cur_null = false;
            } else {
                cur_null = true;
            }
            proof {
                assert(scores@.map_values(|v: usize| v as int) =~= marble_state(
                    players as nat,
                    m as nat,
                ).2);
                assert(circle@ =~= marble_state(players as nat, m as nat).0);
            }
        } else {
            let n1 = if cur_null {
                0
            } else if cur + 1 >= len {
                0
            } else {
                cur + 1
            };
            circle.insert(n1 + 1, m);
            cur = n1 + 1;
            cur_null = false;
            proof {
                assert(circle@ =~= marble_state(players as nat, m as nat).0);
                assert(scores@.map_values(|v: usize| v as int) =~= marble_state(
                    players as nat,
                    m as nat,
                ).2);
            }
        }
        player = player + 1;
        if player >= players {
            player = 0;
        }
        proof {
            let pl = players as int;
            vstd::arithmetic::div_mod::lemma_fundamental_div_mod((m - 1) as int, pl);
            let q = ((m - 1) as int) / pl;
            vstd::arithmetic::mul::lemma_mul_is_commutative(pl, q);
            if (player as int) != 0 {
                vstd::arithmetic::div_mod::lemma_fundamental_div_mod_converse_mod(
                    m as int,
                    pl,
                    q,
                    player as int,
                );
            } else {
                vstd::arithmetic::mul::lemma_mul_is_distributive_add_other_way(pl, q, 1);
                vstd::arithmetic::div_mod::lemma_fundamental_div_mod_converse_mod(
                    m as int,
                    pl,
                    q + 1,
                    0,
                );
            }
        }
        m = m + 1;
    }
    let mut best: usize = 0;
    let mut k: usize = 0;
    proof {
        assert(scores@.map_values(|v: usize| v as int).take(0) =~= Seq::<int>::empty());
    }
    while k < scores.len()
        invariant
            k <= scores@.len(),
            best as int == seq_max(scores@.map_values(|v: usize| v as int).take(k as int)),
        decreases scores@.len() - k,
    {
        proof {
            let mapped = scores@.map_values(|v: usize| v as int);
            assert(mapped.take(k + 1).drop_last() =~= mapped.take(k as int));
            assert(mapped.take(k + 1).last() == mapped[k as int]);
        }
        if scores[k] > best {
            best = scores[k];
        }
        k = k + 1;
    }
    proof {
        let mapped = scores@.map_values(|v: usize| v as int);
        assert(mapped.take(mapped.len() as int) =~= mapped);
    }
    best
}

} // verus!
